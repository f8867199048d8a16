[package]
name = "pnps"
version = "0.1.0"
edition = "2021"
publish = false

[dependencies]
anyhow = "=1.0.104"
clap = { version = "=4.6.7", features = ["derive"] }
clap_complete = "=4.6.11"
console = "=0.16.6"
csv = "=1.4.0"
env_logger = "=0.11.11"
indicatif = "=0.18.6"
log = "=0.4.34"
serde_json = { version = "=1.0.154", features = ["preserve_order"] }
uuid = "=1.29.0"

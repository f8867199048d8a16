use pnps::cli::{Calc, Config};
use pnps::config::{
    config_command, names_of_columns, sample_ids_of, write_config_file, ConfigError, VcfColumn,
};

fn column(name: &str, stem: Option<&str>) -> VcfColumn {
    VcfColumn { name: name.to_string(), stem: stem.map(|s| s.to_string()) }
}

fn options(depth_files: &[&str]) -> Config {
    Config {
        vcf_file: "calls.vcf".to_string(),
        output_file: None,
        depth_files: depth_files.iter().map(|d| d.to_string()).collect(),
    }
}

const HEADER: &str =
    "#Rearrange to make files and columns correspond\n#SAMPLE_ID\tVCF_COLUMN\tDEPTH_FILE\n";

#[test]
fn write_config_file_writes_header_and_one_line_per_sample() {
    let text = write_config_file(
        &vec!["A".to_string(), "B".to_string()],
        &vec!["a.bam".to_string(), "b.bam".to_string()],
        &vec!["a.depth".to_string(), "b.depth".to_string()],
    );
    assert_eq!(text, format!("{}A\ta.bam\ta.depth\nB\tb.bam\tb.depth\n", HEADER));
}

#[test]
fn write_config_file_without_samples_writes_the_header() {
    assert_eq!(write_config_file(&vec![], &vec![], &vec![]), HEADER);
}

#[test]
fn config_command_pairs_stems_columns_and_depth_files() {
    let columns = vec![column("bam/a.bam", Some("a")), column("bam/b.sorted.bam", Some("b.sorted"))];
    let out = config_command(&options(&["d1", "d2"]), &columns);
    assert_eq!(out, Ok(format!("{}a\tbam/a.bam\td1\nb.sorted\tbam/b.sorted.bam\td2\n", HEADER)));
}

#[test]
fn count_mismatch_names_both_counts() {
    let columns = vec![column("a.bam", Some("a")), column("b.bam", Some("b")), column("c.bam", Some("c"))];
    let out = config_command(&options(&["d1", "d2"]), &columns);
    assert_eq!(out, Err(ConfigError::CountMismatch { samples: 3, depth_files: 2 }));
    assert_eq!(
        out.unwrap_err().message(),
        "Length of samples (3) in VCF file and number of Depth files (2) is not the same"
    );
}

#[test]
fn the_depth_files_are_held_against_the_sample_columns() {
    // one column, without a stem, and no depth file: the counts differ
    let columns = vec![column("..", None)];
    let out = config_command(&options(&[]), &columns);
    assert_eq!(out, Err(ConfigError::CountMismatch { samples: 1, depth_files: 0 }));
    let columns = vec![column("..", None), column("a.bam", Some("a"))];
    let out = config_command(&options(&["d1"]), &columns);
    assert_eq!(out, Err(ConfigError::CountMismatch { samples: 2, depth_files: 1 }));
    let out = config_command(&options(&["d1", "d2", "d3"]), &columns);
    assert_eq!(out, Err(ConfigError::CountMismatch { samples: 2, depth_files: 3 }));
    // no columns and no depth files: the counts agree
    assert_eq!(config_command(&options(&[]), &vec![]), Ok(HEADER.to_string()));
}

#[test]
fn a_column_without_stem_is_reported_under_its_name() {
    let columns = vec![column("a.bam", Some("a")), column("..", None), column("/", None)];
    assert_eq!(sample_ids_of(&columns), vec!["a", "..", "/"]);
    assert_eq!(names_of_columns(&columns), vec!["a.bam", "..", "/"]);
    let out = config_command(&options(&["d1", "d2", "d3"]), &columns);
    assert_eq!(out, Ok(format!("{}a\ta.bam\td1\n..\t..\td2\n/\t/\td3\n", HEADER)));
}

#[test]
fn equal_counts_always_give_a_configuration() {
    for k in 0..4usize {
        let columns: Vec<VcfColumn> = (0..k)
            .map(|i| if i % 2 == 0 { column(&format!("s{}.bam", i), Some(&format!("s{}", i))) } else { column("..", None) })
            .collect();
        for d in 0..4usize {
            let depth: Vec<String> = (0..d).map(|i| format!("d{}", i)).collect();
            let names: Vec<&str> = depth.iter().map(|s| s.as_str()).collect();
            let out = config_command(&options(&names), &columns);
            if d == k {
                assert_eq!(out.unwrap().lines().count(), 2 + k);
            } else {
                assert_eq!(out, Err(ConfigError::CountMismatch { samples: k, depth_files: d }));
            }
        }
    }
}

#[test]
fn message_counts_in_decimal() {
    let e = ConfigError::CountMismatch { samples: 0, depth_files: 120 };
    assert_eq!(
        e.message(),
        "Length of samples (0) in VCF file and number of Depth files (120) is not the same"
    );
}

#[test]
fn options_are_plain_values() {
    let calc = Calc {
        gene_map: None,
        taxonomy: None,
        taxon_map: None,
        lineage_map: None,
        taxon_rank: None,
        output_ps: false,
        output_pn: true,
        input_file: "pnps.json".to_string(),
        output_file: "out.csv".to_string(),
    };
    assert_eq!(calc.clone(), calc);
    assert_eq!(options(&["d"]).depth_files, vec!["d"]);
}

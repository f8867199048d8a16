use pnps::uid::{parse_uid, uid_string};
use std::str::FromStr;
use uuid::Uuid;

#[test]
fn uid_string_is_hyphenated_lower_case() {
    assert_eq!(
        uid_string(0xa1a2a3a4b1b2c1c2d1d2d3d4d5d6d7d8),
        "a1a2a3a4-b1b2-c1c2-d1d2-d3d4d5d6d7d8"
    );
    assert_eq!(uid_string(0), "00000000-0000-0000-0000-000000000000");
    assert_eq!(uid_string(u128::MAX), "ffffffff-ffff-ffff-ffff-ffffffffffff");
    assert_eq!(uid_string(0x0123456789abcdef), "00000000-0000-0000-0123-456789abcdef");
}

#[test]
fn parse_uid_reads_the_forms_that_uuid_reads() {
    let want = Some(0x936da01f9abd4d9d80c702af85c822a8u128);
    assert_eq!(parse_uid("936da01f-9abd-4d9d-80c7-02af85c822a8"), want);
    assert_eq!(parse_uid("936DA01F-9ABD-4D9D-80C7-02AF85C822A8"), want);
    assert_eq!(parse_uid("936da01f9abd4d9d80c702af85c822a8"), want);
    assert_eq!(parse_uid("{936da01f-9abd-4d9d-80c7-02af85c822a8}"), want);
    assert_eq!(parse_uid("urn:uuid:936da01f-9abd-4d9d-80c7-02af85c822a8"), want);
}

#[test]
fn parse_uid_refuses_what_uuid_refuses() {
    for s in [
        "",
        "U1",
        "936da01f-9abd-4d9d-80c7-02af85c822a",
        "936da01f-9abd-4d9d-80c7-02af85c822a8 ",
        "936da01f_9abd_4d9d_80c7_02af85c822a8",
        "g36da01f-9abd-4d9d-80c7-02af85c822a8",
        "--------",
        "{}",
        "a-b-c-d-e",
    ] {
        assert_eq!(parse_uid(s), None, "{:?}", s);
        assert!(Uuid::from_str(s).is_err());
    }
}

#[test]
fn text_and_number_round_trip() {
    for v in [0u128, 1, 0xdeadbeef, u128::MAX, 0x936da01f9abd4d9d80c702af85c822a8] {
        assert_eq!(parse_uid(&uid_string(v)), Some(v));
        assert_eq!(uid_string(v), Uuid::from_u128(v).to_string());
    }
}

#[test]
fn different_uids_have_different_texts() {
    assert_ne!(uid_string(1), uid_string(2));
    assert_ne!(uid_string(1), uid_string(1 << 64));
}

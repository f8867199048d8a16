use pnps::places::{code_of_text, code_of_uid, Places};
use pnps::text::{
    chars_of, decimal_text, digit_value, find_char, find_name, index_names, is_space, parse_u32,
    split_fields, split_line, string_of, trim_bounds,
};

fn chars(s: &str) -> Vec<char> {
    s.chars().collect()
}

#[test]
fn chars_and_strings_round_trip() {
    let c = chars_of("añb\u{1F600}");
    assert_eq!(c, vec!['a', 'ñ', 'b', '\u{1F600}']);
    assert_eq!(string_of(&c, 1, 3), "ñb");
    assert_eq!(string_of(&c, 2, 2), "");
}

#[test]
fn is_space_agrees_with_char_is_whitespace() {
    for n in 0u32..0x11000 {
        if let Some(c) = char::from_u32(n) {
            assert_eq!(is_space(c), c.is_whitespace(), "U+{:04X}", n);
        }
    }
}

#[test]
fn trim_bounds_agree_with_str_trim() {
    for s in ["", " ", "\t\n", "a", " a", "a ", "  a b\t ", "\u{3000}x\u{85}", "\ta\tb\t"] {
        let c = chars(s);
        let (from, to) = trim_bounds(&c);
        assert_eq!(string_of(&c, from, to), s.trim(), "{:?}", s);
    }
}

#[test]
fn split_fields_agrees_with_str_split() {
    for s in ["", ",", "a", "a,b", "a,,b", ",a,", "gene1,gene2,gene3"] {
        let c = chars(s);
        let got = split_fields(&c, 0, c.len(), ',');
        let want: Vec<String> = s.split(',').map(|e| e.to_string()).collect();
        assert_eq!(got, want, "{:?}", s);
    }
}

#[test]
fn split_fields_of_a_part() {
    let c = chars("xxa\tb\tcyy");
    assert_eq!(split_fields(&c, 2, 7, '\t'), vec!["a", "b", "c"]);
}

#[test]
fn find_char_gives_the_first_position() {
    let c = chars("ab\tcd\te");
    assert_eq!(find_char(&c, 0, c.len(), '\t'), Some(2));
    assert_eq!(find_char(&c, 3, c.len(), '\t'), Some(5));
    assert_eq!(find_char(&c, 0, 2, '\t'), None);
}

#[test]
fn decimal_text_agrees_with_to_string() {
    for n in [0u64, 1, 9, 10, 11, 99, 100, 12345, u32::MAX as u64, u64::MAX] {
        assert_eq!(decimal_text(n), n.to_string());
    }
}

#[test]
fn digit_value_reads_ascii_digits_only() {
    assert_eq!(digit_value('0'), Some(0));
    assert_eq!(digit_value('9'), Some(9));
    assert_eq!(digit_value('a'), None);
    assert_eq!(digit_value('\u{0663}'), None);
}

#[test]
fn parse_u32_agrees_with_from_str() {
    for s in [
        "", "+", "-", "0", "+0", "-0", "7", "007", "+42", "4294967295", "4294967296",
        "99999999999999999999", "12a", "a12", " 12", "12 ", "1_000", "++1", "9606",
    ] {
        let c = chars(s);
        assert_eq!(parse_u32(&c, 0, c.len()), s.parse::<u32>().ok(), "{:?}", s);
    }
}

#[test]
fn find_name_compares_whole_names() {
    let names = vec!["contig1".to_string(), "contig2".to_string(), "contig1".to_string()];
    let places = index_names(&names);
    assert_eq!(find_name(&names, &places, &"contig2".to_string()), Some(1));
    assert_eq!(find_name(&names, &places, &"contig1".to_string()), Some(0));
    assert_eq!(find_name(&names, &places, &"contig".to_string()), None);
    let none: Vec<String> = vec![];
    assert_eq!(find_name(&none, &index_names(&none), &"contig1".to_string()), None);
}

#[test]
fn find_name_finds_every_name_among_many() {
    let names: Vec<String> = (0..2000).map(|i| format!("k141_{}", i * 7)).collect();
    let places = index_names(&names);
    for (i, name) in names.iter().enumerate() {
        assert_eq!(find_name(&names, &places, name), Some(i));
    }
    assert_eq!(find_name(&names, &places, &"k141_1".to_string()), None);
}

#[test]
fn codes_are_computed_as_stated() {
    assert_eq!(code_of_text(""), 0);
    assert_eq!(code_of_text("a"), 97);
    assert_eq!(code_of_text("ab"), 97 * 31 + 98);
    let long = "x".repeat(40);
    let want = long.chars().fold(0u64, |h, c| h.wrapping_mul(31).wrapping_add(c as u64));
    assert_eq!(code_of_text(&long), want);
    assert_eq!(code_of_uid(5), 5);
    assert_eq!(code_of_uid((7u128 << 64) + 5), 12);
    assert_eq!(code_of_uid(u128::MAX), u64::MAX - 1);
}

#[test]
fn places_list_the_positions_of_a_code_in_rising_order() {
    let mut places = Places::new();
    for code in [4u64, 9, 4, 4, 1, 9] {
        places.push(code);
    }
    assert_eq!(places.candidates(4).clone(), vec![0, 2, 3]);
    assert_eq!(places.candidates(9).clone(), vec![1, 5]);
    assert_eq!(places.candidates(1).clone(), vec![4]);
    assert!(places.candidates(7).is_empty());
}

#[test]
fn split_line_skips_comments_and_lines_without_tab() {
    assert_eq!(split_line(&"".to_string()), None);
    assert_eq!(split_line(&"#a\tb".to_string()), None);
    assert_eq!(split_line(&"no tab here".to_string()), None);
    // the tab at the end is cut off with the white space
    assert_eq!(split_line(&"key\t".to_string()), None);
}

#[test]
fn split_line_splits_at_the_first_tab_of_the_trimmed_line() {
    assert_eq!(
        split_line(&"  key\tvalue one\tmore \n".to_string()),
        Some(("key".to_string(), "value one\tmore".to_string()))
    );
    let line = " #not a comment\tx".to_string();
    assert_eq!(split_line(&line), Some(("#not a comment".to_string(), "x".to_string())));
    for s in ["a\tb", "\ta\tb", "a\t\tb", "a b\tc"] {
        let want = s.trim().split_once('\t').map(|(a, b)| (a.to_string(), b.to_string()));
        assert_eq!(split_line(&s.to_string()), want, "{:?}", s);
    }
}

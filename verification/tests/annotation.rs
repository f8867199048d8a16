use pnps::annotation::{coding_annotations, has_distinct_uids, Annotation, AnnotationIndex, Strand};

fn annotation(uid: u128, seq_id: &str, start: u64, end: u64, kind: &str) -> Annotation {
    Annotation {
        uid,
        seq_id: seq_id.to_string(),
        start,
        end,
        strand: Strand::Forward,
        feature_type: kind.to_string(),
    }
}

#[test]
fn contains_is_half_open() {
    let a = annotation(1, "c", 10, 20, "CDS");
    assert!(!a.contains(9));
    assert!(a.contains(10));
    assert!(a.contains(19));
    assert!(!a.contains(20));
    let empty = annotation(2, "c", 10, 10, "CDS");
    assert!(!empty.contains(10));
}

#[test]
fn only_cds_is_coding() {
    assert!(annotation(1, "c", 0, 1, "CDS").is_coding());
    assert!(!annotation(1, "c", 0, 1, "cds").is_coding());
    assert!(!annotation(1, "c", 0, 1, "gene").is_coding());
    assert!(!annotation(1, "c", 0, 1, "CDSX").is_coding());
    assert!(!annotation(1, "c", 0, 1, "").is_coding());
}

#[test]
fn duplicate_copies_every_field() {
    let a = annotation(7, "contig", 3, 9, "CDS");
    assert_eq!(a.duplicate(), a);
}

#[test]
fn coding_annotations_keep_one_per_uid_and_the_later_wins() {
    let input = vec![
        annotation(1, "c1", 0, 10, "CDS"),
        annotation(2, "c1", 5, 15, "gene"),
        annotation(3, "c2", 0, 10, "CDS"),
        annotation(1, "c9", 100, 200, "CDS"),
        annotation(3, "c2", 0, 10, "tRNA"),
    ];
    let out = coding_annotations(&input);
    assert_eq!(out, vec![annotation(1, "c9", 100, 200, "CDS"), annotation(3, "c2", 0, 10, "CDS")]);
    assert!(has_distinct_uids(&out));
}

#[test]
fn coding_annotations_of_many_keep_the_order_of_first_appearance() {
    let mut input = Vec::new();
    for round in 0..3u64 {
        for uid in 0..200u128 {
            input.push(annotation(uid * 0x1_0000_0000_0000_0001, "c", round, round + 1, "CDS"));
        }
    }
    let out = coding_annotations(&input);
    assert_eq!(out.len(), 200);
    for (i, a) in out.iter().enumerate() {
        assert_eq!(a.uid, i as u128 * 0x1_0000_0000_0000_0001);
        assert_eq!(a.start, 2);
    }
}

#[test]
fn has_distinct_uids_finds_a_repetition() {
    assert!(has_distinct_uids(&vec![]));
    assert!(has_distinct_uids(&vec![annotation(1, "c", 0, 1, "CDS"), annotation(2, "c", 0, 1, "CDS")]));
    assert!(!has_distinct_uids(&vec![
        annotation(1, "c", 0, 1, "CDS"),
        annotation(2, "c", 0, 1, "CDS"),
        annotation(1, "d", 0, 1, "CDS"),
    ]));
}

#[test]
fn covering_lists_overlapping_annotations_in_index_order() {
    let index = AnnotationIndex::build(vec![
        annotation(1, "c1", 10, 100, "CDS"),
        annotation(2, "c2", 10, 100, "CDS"),
        annotation(3, "c1", 50, 150, "CDS"),
        annotation(4, "c1", 200, 300, "CDS"),
    ]).unwrap();
    assert_eq!(index.len(), 4);
    assert_eq!(index.annotation(2).uid, 3);
    assert_eq!(index.covering(&"c1".to_string(), 9), Vec::<usize>::new());
    assert_eq!(index.covering(&"c1".to_string(), 10), vec![0]);
    assert_eq!(index.covering(&"c1".to_string(), 60), vec![0, 2]);
    assert_eq!(index.covering(&"c1".to_string(), 100), vec![2]);
    assert_eq!(index.covering(&"c2".to_string(), 60), vec![1]);
    assert_eq!(index.covering(&"c3".to_string(), 60), Vec::<usize>::new());
    assert_eq!(index.covering(&"c1".to_string(), 250), vec![3]);
}

#[test]
fn index_of_nothing_covers_nothing() {
    let index = AnnotationIndex::build(vec![]).unwrap();
    assert_eq!(index.len(), 0);
    assert!(index.covering(&"c1".to_string(), 1).is_empty());
}

#[test]
fn covering_finds_the_sequence_among_many() {
    let mut annotations = Vec::new();
    for i in 0..500u64 {
        annotations.push(annotation(i as u128, &format!("contig{}", i % 50), i, i + 100, "CDS"));
    }
    let index = AnnotationIndex::build(annotations).unwrap();
    for c in 0..50u64 {
        let hits = index.covering(&format!("contig{}", c), 120);
        let want: Vec<usize> =
            (0..500usize).filter(|i| *i as u64 % 50 == c && *i <= 120 && 120 < *i + 100).collect();
        assert_eq!(hits, want);
    }
    assert!(index.covering(&"contig50".to_string(), 120).is_empty());
}

#[test]
fn no_index_of_annotations_that_share_a_uid() {
    let index = AnnotationIndex::build(vec![
        annotation(1, "c1", 0, 10, "CDS"),
        annotation(2, "c1", 0, 10, "CDS"),
        annotation(1, "c2", 0, 10, "CDS"),
    ]);
    assert!(index.is_none());
    assert!(AnnotationIndex::build(vec![]).is_some());
}

use pnps::annotation::{Annotation, AnnotationIndex, Strand};
use pnps::classify::{
    apply_outcomes, screen_record, Classifier, Outcome, Query, SampleCall, Tally, VariantRecord,
    Verdict,
};
use pnps::record::{PnPsRecord, SamplePnPs};
use pnps::sample::SampleEntry;

fn annotation(uid: u128, seq_id: &str, start: u64, end: u64) -> Annotation {
    Annotation {
        uid,
        seq_id: seq_id.to_string(),
        start,
        end,
        strand: Strand::Forward,
        feature_type: "CDS".to_string(),
    }
}

fn entry(sample_id: &str, column: &str) -> SampleEntry {
    SampleEntry {
        sample_id: sample_id.to_string(),
        vcf_column: column.to_string(),
        depth_file: format!("{}.depth", sample_id),
    }
}

fn record(chrom: &str, pos: u64, depth: u32, qual: f64, calls: &[(&str, &str)]) -> VariantRecord {
    VariantRecord {
        chrom: chrom.to_string(),
        pos,
        depth,
        qual: qual.to_bits(),
        indel: false,
        reference: "A".to_string(),
        calls: calls
            .iter()
            .map(|(s, a)| SampleCall { sample: s.to_string(), alt: a.to_string() })
            .collect(),
    }
}

fn classifier() -> Classifier {
    let index = AnnotationIndex::build(vec![
        annotation(1, "contig1", 10, 100),
        annotation(2, "contig1", 50, 150),
        annotation(3, "contig2", 0, 30),
    ]).unwrap();
    let mut table = SamplePnPs::new();
    table.insert("A".to_string(), vec![PnPsRecord::new(1, 10, 20), PnPsRecord::new(2, 5, 7)]);
    table.insert("B".to_string(), vec![PnPsRecord::new(2, 5, 7), PnPsRecord::new(3, 1, 1)]);
    Classifier::new(
        index,
        vec!["contig1".to_string(), "contig2".to_string()],
        vec![entry("A", "a.bam"), entry("B", "b.bam")],
        table,
        4,
        30f64.to_bits(),
    ).unwrap()
}

#[test]
fn low_depth_is_tried_before_quality() {
    let mut c = classifier();
    let v = c.offer(&record("contig1", 60, 3, 1.0, &[("a.bam", "T")]));
    assert_eq!(v, Verdict::LowDepth);
    assert!(c.queries().is_empty());
    assert_eq!(c.counts(), Tally { total: 1, low_depth: 1, low_qual: 0, indel: 0 });
}

#[test]
fn low_quality_is_tried_before_indel() {
    let mut c = classifier();
    let mut r = record("contig1", 60, 4, 29.99, &[("a.bam", "T")]);
    r.indel = true;
    assert_eq!(c.offer(&r), Verdict::LowQuality);
    assert_eq!(c.counts(), Tally { total: 1, low_depth: 0, low_qual: 1, indel: 0 });
}

#[test]
fn indel_and_long_reference_are_skipped() {
    let mut c = classifier();
    let mut r = record("contig1", 60, 4, 30.0, &[("a.bam", "T")]);
    r.indel = true;
    assert_eq!(c.offer(&r), Verdict::Indel);
    let mut r = record("contig1", 60, 4, 30.0, &[("a.bam", "T")]);
    r.reference = "AC".to_string();
    assert_eq!(c.offer(&r), Verdict::Indel);
    assert!(c.queries().is_empty());
    assert_eq!(c.counts(), Tally { total: 2, low_depth: 0, low_qual: 0, indel: 2 });
}

#[test]
fn skipped_record_changes_no_counter() {
    let mut c = classifier();
    let before = c.counters().clone();
    c.offer(&record("contig1", 60, 0, 99.0, &[("a.bam", "T"), ("b.bam", "G")]));
    c.settle(&vec![Outcome::Synonymous, Outcome::Nonsynonymous]);
    assert_eq!(*c.counters(), before);
}

#[test]
fn accepted_record_raises_one_query_per_kept_record() {
    let mut c = classifier();
    let v = c.offer(&record("contig1", 60, 10, 50.0, &[("a.bam", "T"), ("b.bam", "G")]));
    assert_eq!(v, Verdict::Accepted);
    // annotation 0 (uid 1): kept by A only; annotation 1 (uid 2): kept by A and B
    assert_eq!(
        c.queries().clone(),
        vec![
            Query { annotation: 0, call: 0, sample: 0, slot: 0 },
            Query { annotation: 1, call: 0, sample: 0, slot: 1 },
            Query { annotation: 1, call: 1, sample: 1, slot: 0 },
        ]
    );
}

#[test]
fn settle_counts_each_answer_once() {
    let mut c = classifier();
    c.offer(&record("contig1", 60, 10, 50.0, &[("a.bam", "T"), ("b.bam", "G")]));
    c.settle(&vec![Outcome::Synonymous, Outcome::Nonsynonymous, Outcome::Undetermined]);
    let t = c.counters();
    assert_eq!((t.samples[0].records[0].syn, t.samples[0].records[0].nonsyn), (1, 0));
    assert_eq!((t.samples[0].records[1].syn, t.samples[0].records[1].nonsyn), (0, 1));
    assert_eq!((t.samples[1].records[0].syn, t.samples[1].records[0].nonsyn), (0, 0));
    assert!(c.queries().is_empty());
    assert_eq!(c.settled(), 3);
    // settling again changes nothing
    c.settle(&vec![Outcome::Synonymous]);
    let t = c.counters();
    assert_eq!((t.samples[0].records[0].syn, t.samples[0].records[0].nonsyn), (1, 0));
}

#[test]
fn missing_answers_count_as_undetermined() {
    let mut c = classifier();
    c.offer(&record("contig1", 60, 10, 50.0, &[("a.bam", "T"), ("b.bam", "G")]));
    c.settle(&vec![Outcome::Nonsynonymous]);
    let t = c.counters();
    assert_eq!(t.samples[0].records[0].nonsyn, 1);
    assert_eq!(t.samples[0].records[1].observed_total(), 0);
    assert_eq!(t.samples[1].records[0].observed_total(), 0);
}

#[test]
fn unknown_sample_and_filtered_record_are_ignored() {
    let mut c = classifier();
    // sample c.bam is unknown; B keeps no record for uid 1
    c.offer(&record("contig1", 20, 10, 50.0, &[("c.bam", "T"), ("b.bam", "G")]));
    assert!(c.queries().is_empty());
}

#[test]
fn position_outside_interval_or_sequence_raises_nothing() {
    let mut c = classifier();
    c.offer(&record("contig1", 150, 10, 50.0, &[("a.bam", "T")]));
    assert!(c.queries().is_empty());
    c.offer(&record("contig9", 20, 10, 50.0, &[("a.bam", "T")]));
    assert!(c.queries().is_empty());
    c.offer(&record("contig1", 149, 10, 50.0, &[("a.bam", "T")]));
    assert_eq!(c.queries().len(), 1);
}

#[test]
fn record_without_reference_sequence_raises_nothing() {
    let index = AnnotationIndex::build(vec![annotation(1, "contig1", 10, 100)]).unwrap();
    let mut table = SamplePnPs::new();
    table.insert("A".to_string(), vec![PnPsRecord::new(1, 10, 20)]);
    let mut c = Classifier::new(index, vec![], vec![entry("A", "a.bam")], table, 4, 30f64.to_bits()).unwrap();
    assert_eq!(c.offer(&record("contig1", 60, 10, 50.0, &[("a.bam", "T")])), Verdict::Accepted);
    assert!(c.queries().is_empty());
}

#[test]
fn low_depth_share_guards_against_no_records() {
    let t = Tally { total: 0, low_depth: 0, low_qual: 0, indel: 0 };
    assert_eq!(t.low_depth_share(), None);
    let t = Tally { total: 3, low_depth: 1, low_qual: 0, indel: 0 };
    assert_eq!(t.low_depth_share(), Some(3333));
    let t = Tally { total: 3, low_depth: 2, low_qual: 0, indel: 0 };
    assert_eq!(t.low_depth_share(), Some(6667));
    let t = Tally { total: 8, low_depth: 8, low_qual: 0, indel: 0 };
    assert_eq!(t.low_depth_share(), Some(10000));
}

#[test]
fn finish_hands_out_table_and_tally() {
    let mut c = classifier();
    c.offer(&record("contig2", 5, 10, 50.0, &[("b.bam", "T")]));
    c.settle(&vec![Outcome::Synonymous]);
    let (table, tally) = c.finish();
    assert_eq!(table.samples[1].records[1].syn, 1);
    assert_eq!(tally.total, 1);
}

#[test]
fn observed_counts_never_exceed_the_records_inside_with_a_call() {
    let mut c = classifier();
    // uid 1 of sample A covers [10, 100) of contig1
    let stream = [
        (5u64, true),
        (10, true),
        (50, false),
        (60, true),
        (99, true),
        (100, true),
        (120, true),
    ];
    let mut inside_with_call = 0u64;
    for (pos, called) in stream {
        let calls: &[(&str, &str)] = if called { &[("a.bam", "T")] } else { &[("b.bam", "T")] };
        c.offer(&record("contig1", pos, 10, 50.0, calls));
        let answers = vec![Outcome::Synonymous; c.queries().len()];
        c.settle(&answers);
        if called && (10..100).contains(&pos) {
            inside_with_call += 1;
        }
        let r = c.counters().samples[0].records[0];
        assert!(r.syn + r.nonsyn <= inside_with_call);
    }
    assert_eq!(c.counters().samples[0].records[0].syn, 3);
}

#[test]
fn expectations_and_coverage_are_never_changed_by_classification() {
    let mut c = classifier();
    let before = c.counters().clone();
    for pos in [20u64, 60, 70, 140] {
        c.offer(&record("contig1", pos, 10, 50.0, &[("a.bam", "T"), ("b.bam", "G")]));
        let answers = vec![Outcome::Nonsynonymous; c.queries().len()];
        c.settle(&answers);
    }
    let after = c.counters();
    for (a, b) in after.samples.iter().zip(before.samples.iter()) {
        assert_eq!(a.sample_id, b.sample_id);
        assert_eq!(a.records.len(), b.records.len());
        for (x, y) in a.records.iter().zip(b.records.iter()) {
            assert_eq!((x.uid, x.exp_syn, x.exp_nonsyn, x.coverage), (y.uid, y.exp_syn, y.exp_nonsyn, y.coverage));
            assert!(x.syn >= y.syn && x.nonsyn >= y.nonsyn);
        }
    }
}

#[test]
fn no_pass_over_a_table_with_observations() {
    let index = AnnotationIndex::build(vec![annotation(1, "contig1", 10, 100)]).unwrap();
    let mut table = SamplePnPs::new();
    let mut seen = PnPsRecord::new(1, 10, 20);
    seen.syn = 1;
    table.insert("A".to_string(), vec![seen]);
    let c = Classifier::new(index, vec![], vec![entry("A", "a.bam")], table, 4, 30f64.to_bits());
    assert!(c.is_none());
}

#[test]
fn screen_record_tries_depth_then_quality_then_indel() {
    let min_qual = 30f64.to_bits();
    let mut r = record("c", 1, 4, 30.0, &[]);
    assert_eq!(screen_record(&r, 4, min_qual), Verdict::Accepted);
    r.qual = f64::NAN.to_bits();
    // a score that is no number is not below the threshold
    assert_eq!(screen_record(&r, 4, min_qual), Verdict::Accepted);
    r.qual = (-1.0f64).to_bits();
    assert_eq!(screen_record(&r, 4, min_qual), Verdict::LowQuality);
    r.depth = 0;
    assert_eq!(screen_record(&r, 4, min_qual), Verdict::LowDepth);
    let mut r = record("c", 1, 4, 30.0, &[]);
    r.reference = "".to_string();
    assert_eq!(screen_record(&r, 4, min_qual), Verdict::Accepted);
    r.reference = "ñ".to_string();
    assert_eq!(screen_record(&r, 4, min_qual), Verdict::Accepted);
    r.reference = "AT".to_string();
    assert_eq!(screen_record(&r, 4, min_qual), Verdict::Indel);
}

#[test]
fn apply_outcomes_counts_answers_by_place() {
    let mut table = SamplePnPs::new();
    table.insert("A".to_string(), vec![PnPsRecord::new(1, 1, 1), PnPsRecord::new(2, 1, 1)]);
    table.insert("B".to_string(), vec![PnPsRecord::new(1, 1, 1)]);
    let queries = vec![
        Query { annotation: 0, call: 0, sample: 0, slot: 1 },
        Query { annotation: 0, call: 1, sample: 1, slot: 0 },
        Query { annotation: 1, call: 0, sample: 0, slot: 1 },
        Query { annotation: 1, call: 1, sample: 0, slot: 1 },
    ];
    let outcomes = vec![
        Outcome::Synonymous,
        Outcome::Nonsynonymous,
        Outcome::Synonymous,
        Outcome::Undetermined,
        Outcome::Synonymous,
    ];
    apply_outcomes(&mut table, &queries, &outcomes);
    assert_eq!((table.samples[0].records[0].syn, table.samples[0].records[0].nonsyn), (0, 0));
    assert_eq!((table.samples[0].records[1].syn, table.samples[0].records[1].nonsyn), (2, 0));
    assert_eq!((table.samples[1].records[0].syn, table.samples[1].records[0].nonsyn), (0, 1));
    apply_outcomes(&mut table, &vec![], &outcomes);
    assert_eq!(table.samples[0].records[1].syn, 2);
}

#[test]
fn a_pass_over_many_annotations_and_sequences() {
    let mut annotations = Vec::new();
    let mut sequences = Vec::new();
    for c in 0..40u64 {
        sequences.push(format!("contig{}", c));
        for g in 0..25u64 {
            annotations.push(annotation((c * 25 + g + 1) as u128, &format!("contig{}", c), g * 100, g * 100 + 150));
        }
    }
    let records: Vec<PnPsRecord> =
        annotations.iter().filter(|a| a.uid % 2 == 0).map(|a| PnPsRecord::new(a.uid, 9, 9)).collect();
    let mut table = SamplePnPs::new();
    table.insert("A".to_string(), records);
    let index = AnnotationIndex::build(annotations).unwrap();
    let mut c =
        Classifier::new(index, sequences, vec![entry("A", "a.bam")], table, 1, 0f64.to_bits()).unwrap();
    // position 120 of contig7 lies in genes 0 and 1 of the contig: uids 176 and 177
    c.offer(&record("contig7", 120, 10, 50.0, &[("a.bam", "T")]));
    assert_eq!(c.queries().len(), 1);
    let q = c.queries()[0];
    assert_eq!(c.annotations().annotation(q.annotation).uid, 176);
    assert_eq!(c.counters().samples[0].records[q.slot].uid, 176);
    c.settle(&vec![Outcome::Nonsynonymous]);
    assert_eq!(c.counters().samples[0].records[q.slot].nonsyn, 1);
    c.offer(&record("contig40", 120, 10, 50.0, &[("a.bam", "T")]));
    assert!(c.queries().is_empty());
}

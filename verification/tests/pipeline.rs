use pnps::annotation::{coding_annotations, Annotation, AnnotationIndex, Strand};
use pnps::baseline::{prepare_annotations, Expected};
use pnps::classify::{Classifier, Outcome, SampleCall, VariantRecord, Verdict};
use pnps::output::{write_output, Cell, Ratio, ResultType};
use pnps::record::SamplePnPs;
use pnps::sample::{add_depth_sample_data, read_config_file};
use pnps::uid::{parse_uid, uid_string};

const U1: &str = "936da01f-9abd-4d9d-80c7-02af85c822a8";

fn record(pos: u64, calls: &[&str]) -> VariantRecord {
    VariantRecord {
        chrom: "contig1".to_string(),
        pos,
        depth: 12,
        qual: 45.5f64.to_bits(),
        indel: false,
        reference: "C".to_string(),
        calls: calls
            .iter()
            .map(|s| SampleCall { sample: s.to_string(), alt: "T".to_string() })
            .collect(),
    }
}

fn text(cell: &Cell) -> String {
    let value = match cell {
        Cell::Missing => f64::NAN,
        Cell::Single(r) => r.num as f64 / r.den as f64,
        Cell::Quotient(pn, ps) => (pn.num as f64 / pn.den as f64) / (ps.num as f64 / ps.den as f64),
    };
    value.to_string()
}

#[test]
fn two_samples_one_annotation_from_variants_to_matrix() {
    let u1 = parse_uid(U1).unwrap();
    let annotations = coding_annotations(&vec![
        Annotation {
            uid: u1,
            seq_id: "contig1".to_string(),
            start: 100,
            end: 400,
            strand: Strand::Forward,
            feature_type: "CDS".to_string(),
        },
        Annotation {
            uid: 5,
            seq_id: "contig1".to_string(),
            start: 100,
            end: 400,
            strand: Strand::Forward,
            feature_type: "gene".to_string(),
        },
    ]);
    assert_eq!(annotations.len(), 1);
    let baseline =
        prepare_annotations(&annotations, &vec![Some(Expected { exp_syn: 10, exp_nonsyn: 20 })])
            .unwrap();
    let info = read_config_file(&vec![
        "#SAMPLE_ID\tVCF_COLUMN\tDEPTH_FILE".to_string(),
        "A\ta.bam\ta.depth".to_string(),
        "B\tb.bam\tb.depth".to_string(),
    ])
    .unwrap();

    let mut table = SamplePnPs::new();
    let top = add_depth_sample_data(&mut table, "A".to_string(), &baseline, &vec![Some(9)], 4);
    assert_eq!(top.map(|r| r.coverage), Some(9));
    // sample B is filtered by coverage: nothing is retained, and nothing is the maximum
    let top = add_depth_sample_data(&mut table, "B".to_string(), &baseline, &vec![Some(3)], 4);
    assert_eq!(top, None);

    let mut classifier = Classifier::new(
        AnnotationIndex::build(annotations).unwrap(),
        vec!["contig1".to_string()],
        info,
        table,
        4,
        30f64.to_bits(),
    ).unwrap();
    let answers = [
        Outcome::Synonymous,
        Outcome::Nonsynonymous,
        Outcome::Nonsynonymous,
        Outcome::Undetermined,
        Outcome::Synonymous,
        Outcome::Nonsynonymous,
        Outcome::Nonsynonymous,
    ];
    for (i, answer) in answers.iter().enumerate() {
        let verdict = classifier.offer(&record(100 + i as u64, &["a.bam", "b.bam", "c.bam"]));
        assert_eq!(verdict, Verdict::Accepted);
        // B keeps no record and c.bam is not configured: one question, for A
        assert_eq!(classifier.queries().len(), 1);
        assert_eq!(classifier.queries()[0].sample, 0);
        assert_eq!(classifier.resolve_column(&"b.bam".to_string()), Some(1));
        assert_eq!(classifier.resolve_column(&"c.bam".to_string()), None);
        classifier.settle(&vec![*answer]);
    }
    // a record outside the annotation, and one skipped for low depth
    classifier.offer(&record(400, &["a.bam"]));
    classifier.settle(&vec![Outcome::Synonymous]);
    let mut shallow = record(150, &["a.bam"]);
    shallow.depth = 3;
    assert_eq!(classifier.offer(&shallow), Verdict::LowDepth);
    classifier.settle(&vec![Outcome::Synonymous]);

    let (table, tally) = classifier.finish();
    assert_eq!(tally.total, 9);
    assert_eq!(tally.low_depth, 1);
    assert_eq!(tally.low_depth_share(), Some(1111));
    let a = table.samples[0].records[0];
    assert_eq!((a.syn, a.nonsyn, a.exp_syn, a.exp_nonsyn, a.coverage), (2, 4, 10, 20, 9));
    assert!(a.syn + a.nonsyn <= 7);

    let matrix = write_output(&table, ResultType::PnPs);
    assert_eq!(matrix.samples, vec!["A", "B"]);
    assert_eq!(matrix.rows.len(), 1);
    assert_eq!(uid_string(matrix.rows[0].uid), U1);
    assert_eq!(
        matrix.rows[0].cells[0],
        Cell::Quotient(Ratio { num: 4, den: 20 }, Ratio { num: 2, den: 10 })
    );
    let texts: Vec<String> = matrix.rows[0].cells.iter().map(text).collect();
    assert_eq!(texts, vec!["1", "NaN"]);

    let matrix = write_output(&table, ResultType::Pn);
    let texts: Vec<String> = matrix.rows[0].cells.iter().map(text).collect();
    assert_eq!(texts, vec!["0.2", "NaN"]);
}

#[test]
fn two_calls_for_one_sample_count_twice() {
    let annotations = vec![Annotation {
        uid: 1,
        seq_id: "contig1".to_string(),
        start: 0,
        end: 10,
        strand: Strand::Reverse,
        feature_type: "CDS".to_string(),
    }];
    let baseline =
        prepare_annotations(&annotations, &vec![Some(Expected { exp_syn: 1, exp_nonsyn: 1 })])
            .unwrap();
    let info = read_config_file(&vec!["A\ta.bam\ta.depth".to_string()]).unwrap();
    let mut table = SamplePnPs::new();
    add_depth_sample_data(&mut table, "A".to_string(), &baseline, &vec![Some(9)], 1);
    let mut classifier = Classifier::new(
        AnnotationIndex::build(annotations).unwrap(),
        vec!["contig1".to_string()],
        info,
        table,
        1,
        0f64.to_bits(),
    ).unwrap();
    classifier.offer(&record(5, &["a.bam", "a.bam"]));
    assert_eq!(classifier.queries().len(), 2);
    classifier.settle(&vec![Outcome::Synonymous, Outcome::Nonsynonymous]);
    let r = classifier.counters().samples[0].records[0];
    assert_eq!((r.syn, r.nonsyn), (1, 1));
}

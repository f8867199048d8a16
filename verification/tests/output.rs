use pnps::calc::{calc_command, Report};
use pnps::cli::Calc;
use pnps::group::{
    code_of_key, find_group, group_pnps, group_records, index_groups, keys_for, GroupKey, GroupPnPs,
};
use pnps::grouped::{totals_of_group, union_of_keys, write_grouped_output, Lineage};
use pnps::maps::{GeneMap, LineageMap, TaxonMap};
use pnps::output::{
    is_usable, result_type, sample_names, union_of_uids, write_output, Cell, Ratio, ResultType,
    Row, Totals,
};
use pnps::record::{PnPsRecord, SamplePnPs};
use pnps::uid::uid_string;

fn record(uid: u128, exp_syn: u64, exp_nonsyn: u64, syn: u64, nonsyn: u64) -> PnPsRecord {
    PnPsRecord { uid, exp_syn, exp_nonsyn, syn, nonsyn, coverage: 10 }
}

fn table(samples: Vec<(&str, Vec<PnPsRecord>)>) -> SamplePnPs {
    let mut t = SamplePnPs::new();
    for (id, records) in samples {
        t.insert(id.to_string(), records);
    }
    t
}

fn value(cell: &Cell) -> f64 {
    match cell {
        Cell::Missing => f64::NAN,
        Cell::Single(r) => r.num as f64 / r.den as f64,
        Cell::Quotient(pn, ps) => (pn.num as f64 / pn.den as f64) / (ps.num as f64 / ps.den as f64),
    }
}

fn options(output_pn: bool, output_ps: bool) -> Calc {
    Calc {
        gene_map: None,
        taxonomy: None,
        taxon_map: None,
        lineage_map: None,
        taxon_rank: None,
        output_ps,
        output_pn,
        input_file: "in".to_string(),
        output_file: "out".to_string(),
    }
}

#[test]
fn result_type_is_chosen_by_the_two_switches() {
    assert_eq!(result_type(true, false), ResultType::Pn);
    assert_eq!(result_type(false, true), ResultType::Ps);
    assert_eq!(result_type(false, false), ResultType::PnPs);
    assert_eq!(result_type(true, true), ResultType::PnPs);
}

#[test]
fn cells_hold_the_ratios_of_the_counters() {
    let t = Totals { exp_syn: 10, exp_nonsyn: 20, syn: 2, nonsyn: 4 };
    assert_eq!(t.cell(ResultType::Pn), Cell::Single(Ratio { num: 4, den: 20 }));
    assert_eq!(t.cell(ResultType::Ps), Cell::Single(Ratio { num: 2, den: 10 }));
    assert_eq!(
        t.cell(ResultType::PnPs),
        Cell::Quotient(Ratio { num: 4, den: 20 }, Ratio { num: 2, den: 10 })
    );
}

#[test]
fn is_normal_agrees_with_the_machine_on_every_small_cell() {
    for exp_syn in 0u128..3 {
        for exp_nonsyn in 0u128..3 {
            for syn in 0u128..3 {
                for nonsyn in 0u128..3 {
                    let t = Totals { exp_syn, exp_nonsyn, syn, nonsyn };
                    for kind in [ResultType::Pn, ResultType::Ps, ResultType::PnPs] {
                        let cell = t.cell(kind);
                        assert_eq!(cell.is_normal(), value(&cell).is_normal(), "{:?}", cell);
                    }
                }
            }
        }
    }
    assert!(!Cell::Missing.is_normal());
    assert!(!value(&Cell::Missing).is_normal());
}

#[test]
fn is_normal_agrees_with_the_machine_on_extreme_counters() {
    for (num, den) in [(1u128, u128::MAX), (u128::MAX, 1), (u128::MAX, u128::MAX), (1, 1)] {
        let pn = Ratio { num, den };
        let ps = Ratio { num: den, den: num };
        assert!(pn.is_normal());
        assert!(value(&Cell::Single(pn)).is_normal());
        assert!(Cell::Quotient(pn, ps).is_normal());
        assert!(value(&Cell::Quotient(pn, ps)).is_normal());
    }
}

#[test]
fn a_row_is_usable_if_one_cell_is() {
    let zero = Cell::Single(Ratio { num: 0, den: 5 });
    let fine = Cell::Single(Ratio { num: 1, den: 5 });
    assert!(!is_usable(&vec![]));
    assert!(!is_usable(&vec![Cell::Missing, zero]));
    assert!(is_usable(&vec![Cell::Missing, zero, fine]));
}

#[test]
fn end_to_end_two_samples_one_annotation() {
    let u1 = 0x11;
    let t = table(vec![("A", vec![record(u1, 10, 20, 2, 4)]), ("B", vec![])]);
    let m = write_output(&t, ResultType::PnPs);
    assert_eq!(m.samples, vec!["A", "B"]);
    assert_eq!(m.rows.len(), 1);
    assert_eq!(m.rows[0].uid, u1);
    assert_eq!(value(&m.rows[0].cells[0]), 1.0);
    assert!(value(&m.rows[0].cells[1]).is_nan());
    assert_eq!(m.rows[0].cells[1], Cell::Missing);
    let m = write_output(&t, ResultType::Pn);
    assert_eq!(m.rows.len(), 1);
    assert_eq!(value(&m.rows[0].cells[0]), 0.2);
    assert_eq!(m.rows[0].cells[1], Cell::Missing);
    let m = write_output(&t, ResultType::Ps);
    assert_eq!(value(&m.rows[0].cells[0]), 0.2);
}

#[test]
fn a_row_of_zeros_is_dropped() {
    let t = table(vec![
        ("A", vec![record(1, 10, 20, 0, 0), record(2, 10, 20, 1, 0)]),
        ("B", vec![record(1, 10, 20, 0, 0)]),
    ]);
    let m = write_output(&t, ResultType::Pn);
    assert!(m.rows.is_empty());
    let m = write_output(&t, ResultType::Ps);
    assert_eq!(m.rows.len(), 1);
    assert_eq!(
        m.rows[0],
        Row { uid: 2, cells: vec![Cell::Single(Ratio { num: 1, den: 10 }), Cell::Missing] }
    );
    // pN/pS of uid 2 in A is 0 / 0.1 = 0: dropped as well
    let m = write_output(&t, ResultType::PnPs);
    assert!(m.rows.is_empty());
}

#[test]
fn a_row_with_one_positive_value_is_written_with_all_its_cells() {
    let t = table(vec![
        ("A", vec![record(1, 10, 20, 0, 0)]),
        ("B", vec![record(1, 10, 20, 3, 5)]),
        ("C", vec![record(2, 1, 1, 1, 1)]),
    ]);
    let m = write_output(&t, ResultType::Pn);
    assert_eq!(m.rows.len(), 2);
    assert_eq!(
        m.rows[0].cells,
        vec![Cell::Single(Ratio { num: 0, den: 20 }), Cell::Single(Ratio { num: 5, den: 20 }), Cell::Missing]
    );
    assert_eq!(m.rows[1].uid, 2);
}

#[test]
fn infinite_and_undefined_values_do_not_keep_a_row() {
    // no opportunities at all: 3 / 0 is infinite, 0 / 0 undefined
    let t = table(vec![("A", vec![record(1, 0, 0, 3, 3), record(2, 0, 0, 0, 0)])]);
    for kind in [ResultType::Pn, ResultType::Ps, ResultType::PnPs] {
        assert!(write_output(&t, kind).rows.is_empty());
    }
}

#[test]
fn rows_come_in_the_order_in_which_uids_are_first_seen() {
    let t = table(vec![
        ("A", vec![record(5, 1, 1, 1, 1), record(3, 1, 1, 1, 1)]),
        ("B", vec![record(3, 1, 1, 1, 1), record(9, 1, 1, 1, 1), record(5, 1, 1, 1, 1)]),
    ]);
    assert_eq!(union_of_uids(&t), vec![5, 3, 9]);
    assert_eq!(sample_names(&t), vec!["A", "B"]);
    let m = write_output(&t, ResultType::PnPs);
    let uids: Vec<u128> = m.rows.iter().map(|r| r.uid).collect();
    assert_eq!(uids, vec![5, 3, 9]);
    let m = write_output(&t, ResultType::Pn);
    assert_eq!(m.rows[2].cells, vec![Cell::Missing, Cell::Single(Ratio { num: 1, den: 1 })]);
}

#[test]
fn default_keys_name_the_uid_with_taxon_zero_and_no_lineage() {
    let keys = keys_for(7, &GeneMap::new(), &TaxonMap::new(), &LineageMap::new());
    assert_eq!(
        keys,
        vec![GroupKey { gene_id: uid_string(7), taxon_id: 0, lineage: "".to_string() }]
    );
    assert_eq!(keys[0].gene_id, "00000000-0000-0000-0000-000000000007");
}

#[test]
fn keys_take_gene_ids_taxon_and_lineage_from_the_maps() {
    let mut genes = GeneMap::new();
    genes.insert(7, vec!["K1".to_string(), "K2".to_string()]);
    let mut taxa = TaxonMap::new();
    taxa.insert(7, 9606);
    let mut lineages = LineageMap::new();
    lineages.insert(7, "Eukaryota".to_string());
    let keys = keys_for(7, &genes, &taxa, &lineages);
    assert_eq!(
        keys,
        vec![
            GroupKey { gene_id: "K1".to_string(), taxon_id: 9606, lineage: "Eukaryota".to_string() },
            GroupKey { gene_id: "K2".to_string(), taxon_id: 9606, lineage: "Eukaryota".to_string() },
        ]
    );
    assert!(keys[0].same(&keys[0].duplicate()));
    assert!(!keys[0].same(&keys[1]));
}

#[test]
fn grouping_with_empty_maps_gives_one_group_per_uid() {
    let records = vec![record(1, 10, 20, 2, 4), record(2, 1, 1, 1, 1)];
    let groups = group_records(&records, &GeneMap::new(), &TaxonMap::new(), &LineageMap::new());
    assert_eq!(
        groups,
        vec![
            GroupPnPs { gene_id: uid_string(1), taxon_id: 0, taxon_lineage: "".to_string(), pnps: vec![0] },
            GroupPnPs { gene_id: uid_string(2), taxon_id: 0, taxon_lineage: "".to_string(), pnps: vec![1] },
        ]
    );
}

#[test]
fn grouped_matrix_with_empty_maps_matches_the_ungrouped_one() {
    let t = table(vec![
        ("A", vec![record(1, 10, 20, 2, 4), record(2, 10, 20, 0, 0)]),
        ("B", vec![record(3, 1, 1, 1, 1), record(1, 10, 20, 1, 1)]),
    ]);
    let groups = group_pnps(&t, &GeneMap::new(), &TaxonMap::new(), &LineageMap::new());
    for kind in [ResultType::Pn, ResultType::Ps, ResultType::PnPs] {
        let plain = write_output(&t, kind);
        let grouped = write_grouped_output(&t, &groups, kind);
        assert_eq!(grouped.samples, plain.samples);
        assert_eq!(grouped.rows.len(), plain.rows.len());
        for (g, p) in grouped.rows.iter().zip(plain.rows.iter()) {
            assert_eq!(g.key.gene_id, uid_string(p.uid));
            assert_eq!(g.key.taxon_id, 0);
            assert_eq!(g.key.lineage, "");
            assert_eq!(g.lineage, Lineage::Literal("".to_string()));
            assert_eq!(g.cells, p.cells);
        }
    }
}

#[test]
fn fan_out_gives_two_rows_with_identical_cells() {
    let t = table(vec![("A", vec![record(1, 10, 20, 2, 4)]), ("B", vec![record(1, 10, 20, 1, 5)])]);
    let mut genes = GeneMap::new();
    genes.insert(1, vec!["K1".to_string(), "K2".to_string()]);
    let groups = group_pnps(&t, &genes, &TaxonMap::new(), &LineageMap::new());
    assert_eq!(groups[0].groups.len(), 2);
    assert_eq!(groups[0].groups[0].pnps, vec![0]);
    assert_eq!(groups[0].groups[1].pnps, vec![0]);
    let m = write_grouped_output(&t, &groups, ResultType::PnPs);
    assert_eq!(m.rows.len(), 2);
    assert_eq!(m.rows[0].key.gene_id, "K1");
    assert_eq!(m.rows[1].key.gene_id, "K2");
    assert_eq!(m.rows[0].cells, m.rows[1].cells);
    assert_eq!(value(&m.rows[0].cells[0]), 1.0);
}

#[test]
fn members_of_a_group_are_summed_before_dividing() {
    let records = vec![record(1, 10, 20, 2, 4), record(2, 30, 5, 1, 1), record(3, 7, 7, 7, 7)];
    let mut genes = GeneMap::new();
    genes.insert(1, vec!["K1".to_string()]);
    genes.insert(2, vec!["K1".to_string()]);
    let groups = group_records(&records, &genes, &TaxonMap::new(), &LineageMap::new());
    assert_eq!(groups.len(), 2);
    assert_eq!(groups[0].pnps, vec![0, 1]);
    assert_eq!(
        totals_of_group(&records, &groups[0].pnps),
        Totals { exp_syn: 40, exp_nonsyn: 25, syn: 3, nonsyn: 5 }
    );
    assert_eq!(totals_of_group(&records, &vec![]), Totals { exp_syn: 0, exp_nonsyn: 0, syn: 0, nonsyn: 0 });
    let t = table(vec![("A", records)]);
    let groups = group_pnps(&t, &genes, &TaxonMap::new(), &LineageMap::new());
    let m = write_grouped_output(&t, &groups, ResultType::Pn);
    assert_eq!(m.rows[0].cells, vec![Cell::Single(Ratio { num: 5, den: 25 })]);
}

#[test]
fn sums_do_not_overflow() {
    let big = record(1, u64::MAX, u64::MAX, u64::MAX, u64::MAX);
    let records = vec![big, big, big];
    let t = totals_of_group(&records, &vec![0, 1, 2, 0]);
    assert_eq!(t.syn, 4 * (u64::MAX as u128));
}

#[test]
fn group_rows_take_the_stored_lineage_or_name_the_taxon() {
    let t = table(vec![("A", vec![record(1, 1, 1, 1, 1), record(2, 1, 1, 1, 1)])]);
    let mut taxa = TaxonMap::new();
    taxa.insert(1, 562);
    taxa.insert(2, 9606);
    let mut lineages = LineageMap::new();
    lineages.insert(2, "Eukaryota;Chordata".to_string());
    let groups = group_pnps(&t, &GeneMap::new(), &taxa, &lineages);
    let m = write_grouped_output(&t, &groups, ResultType::Pn);
    assert_eq!(m.rows.len(), 2);
    assert_eq!(m.rows[0].lineage, Lineage::OfTaxon(562));
    assert_eq!(m.rows[1].lineage, Lineage::Literal("Eukaryota;Chordata".to_string()));
    assert_eq!(m.rows[1].key.taxon_id, 9606);
}

#[test]
fn grouped_rows_are_the_union_over_samples_and_unusable_ones_are_dropped() {
    let t = table(vec![
        ("A", vec![record(1, 1, 1, 1, 1), record(2, 1, 1, 0, 0)]),
        ("B", vec![record(3, 2, 2, 1, 1)]),
    ]);
    let mut genes = GeneMap::new();
    genes.insert(1, vec!["K1".to_string()]);
    genes.insert(2, vec!["K2".to_string()]);
    genes.insert(3, vec!["K1".to_string()]);
    let groups = group_pnps(&t, &genes, &TaxonMap::new(), &LineageMap::new());
    let keys = union_of_keys(&groups);
    let names: Vec<&str> = keys.iter().map(|k| k.gene_id.as_str()).collect();
    assert_eq!(names, vec!["K1", "K2"]);
    let m = write_grouped_output(&t, &groups, ResultType::Pn);
    assert_eq!(m.rows.len(), 1);
    assert_eq!(m.rows[0].key.gene_id, "K1");
    assert_eq!(
        m.rows[0].cells,
        vec![Cell::Single(Ratio { num: 1, den: 1 }), Cell::Single(Ratio { num: 1, den: 2 })]
    );
}

#[test]
fn groups_are_found_by_their_whole_key() {
    let records = vec![record(1, 1, 1, 1, 1), record(2, 1, 1, 1, 1), record(3, 1, 1, 1, 1)];
    let mut genes = GeneMap::new();
    genes.insert(1, vec!["K1".to_string()]);
    genes.insert(2, vec!["K1".to_string()]);
    genes.insert(3, vec!["K1".to_string()]);
    let mut taxa = TaxonMap::new();
    taxa.insert(2, 7);
    let groups = group_records(&records, &genes, &taxa, &LineageMap::new());
    assert_eq!(groups.len(), 2);
    assert_eq!(groups[0].pnps, vec![0, 2]);
    assert_eq!(groups[1].pnps, vec![1]);
    let places = index_groups(&groups);
    let k1 = GroupKey { gene_id: "K1".to_string(), taxon_id: 0, lineage: "".to_string() };
    let k2 = GroupKey { gene_id: "K1".to_string(), taxon_id: 7, lineage: "".to_string() };
    let k3 = GroupKey { gene_id: "K1".to_string(), taxon_id: 7, lineage: "x".to_string() };
    assert_eq!(find_group(&groups, &places, &k1), Some(0));
    assert_eq!(find_group(&groups, &places, &k2), Some(1));
    assert_eq!(find_group(&groups, &places, &k3), None);
    assert!(groups[1].has_key(&k2));
    assert!(groups[1].group_key().same(&k2));
    assert_eq!(code_of_key(&"".to_string(), 5, &"".to_string()), 5 * 31);
    assert_eq!(code_of_key(&"a".to_string(), 0, &"b".to_string()), (97 * 1000003) * 31 + 98);
}

#[test]
fn many_groups_and_rows_come_out_in_first_seen_order() {
    let records: Vec<PnPsRecord> = (0..600u128).map(|u| record(u, 3, 3, 1, 1)).collect();
    let mut genes = GeneMap::new();
    for u in 0..600u128 {
        genes.insert(u, vec![format!("K{:05}", u % 150), format!("M{:05}", u % 7)]);
    }
    let t = table(vec![("A", records.clone()), ("B", records[300..].to_vec())]);
    let groups = group_pnps(&t, &genes, &TaxonMap::new(), &LineageMap::new());
    assert_eq!(groups[0].groups.len(), 157);
    let m = write_grouped_output(&t, &groups, ResultType::Pn);
    assert_eq!(m.rows.len(), 157);
    assert_eq!(m.rows[0].key.gene_id, "K00000");
    assert_eq!(m.rows[1].key.gene_id, "M00000");
    assert_eq!(m.rows[2].key.gene_id, "K00001");
    // K00000 holds uids 0, 150, 300, 450 in A and 300, 450 in B
    assert_eq!(
        m.rows[0].cells,
        vec![Cell::Single(Ratio { num: 4, den: 12 }), Cell::Single(Ratio { num: 2, den: 6 })]
    );
    let plain = write_output(&t, ResultType::Pn);
    assert_eq!(plain.rows.len(), 600);
    assert_eq!(plain.rows[599].uid, 599);
    assert_eq!(plain.rows[10].cells[1], Cell::Missing);
}

#[test]
fn calc_command_is_ungrouped_where_no_mapping_file_is_named() {
    let t = table(vec![("A", vec![record(1, 10, 20, 2, 4)]), ("B", vec![])]);
    let out = calc_command(&options(true, false), &t, &GeneMap::new(), &TaxonMap::new(), &LineageMap::new());
    match out {
        Report::Plain(m) => {
            assert_eq!(m.rows.len(), 1);
            assert_eq!(m.rows[0].cells, vec![Cell::Single(Ratio { num: 4, den: 20 }), Cell::Missing]);
        },
        Report::Grouped(_) => panic!("grouped"),
    }
    // the options decide, not what the mappings hold
    let mut taxa = TaxonMap::new();
    taxa.insert(1, 5);
    let out = calc_command(&options(true, false), &t, &GeneMap::new(), &taxa, &LineageMap::new());
    assert!(matches!(out, Report::Plain(_)));
}

#[test]
fn calc_command_groups_as_soon_as_a_mapping_file_is_named() {
    let t = table(vec![("A", vec![record(1, 10, 20, 2, 4)]), ("B", vec![record(2, 1, 1, 0, 0)])]);
    for which in 0..3 {
        let mut named = options(false, false);
        match which {
            0 => named.gene_map = Some("genes.tsv".to_string()),
            1 => named.taxon_map = Some("taxa.tsv".to_string()),
            _ => named.lineage_map = Some("lineages.tsv".to_string()),
        }
        // the file named holds no entry: the run is grouped all the same
        let out = calc_command(&named, &t, &GeneMap::new(), &TaxonMap::new(), &LineageMap::new());
        match out {
            Report::Grouped(m) => {
                assert_eq!(m.samples, vec!["A", "B"]);
                assert_eq!(m.header(), vec!["gene_id", "taxon", "lineage", "A", "B"]);
                assert_eq!(m.rows.len(), 1);
                assert_eq!(m.rows[0].key.gene_id, uid_string(1));
                assert_eq!(m.rows[0].key.taxon_id, 0);
                assert_eq!(m.rows[0].lineage, Lineage::Literal("".to_string()));
                assert_eq!(value(&m.rows[0].cells[0]), 1.0);
                assert_eq!(m.rows[0].cells[1], Cell::Missing);
            },
            Report::Plain(_) => panic!("plain"),
        }
    }
}

#[test]
fn calc_command_groups_by_what_the_mappings_hold() {
    let t = table(vec![("A", vec![record(1, 10, 20, 2, 4), record(2, 10, 20, 1, 1)])]);
    let mut named = options(true, false);
    named.taxon_map = Some("taxa.tsv".to_string());
    let mut taxa = TaxonMap::new();
    taxa.insert(2, 5);
    let out = calc_command(&named, &t, &GeneMap::new(), &taxa, &LineageMap::new());
    match out {
        Report::Grouped(m) => {
            assert_eq!(m.rows.len(), 2);
            assert_eq!(m.rows[0].lineage, Lineage::Literal("".to_string()));
            assert_eq!(m.rows[1].key.taxon_id, 5);
            assert_eq!(m.rows[1].lineage, Lineage::OfTaxon(5));
            assert_eq!(m.rows[1].cells, vec![Cell::Single(Ratio { num: 1, den: 20 })]);
        },
        Report::Plain(_) => panic!("plain"),
    }
}

#[test]
fn only_a_taxon_other_than_zero_stands_in_for_a_missing_lineage() {
    let t = table(vec![("A", vec![record(1, 1, 1, 1, 1), record(2, 1, 1, 1, 1), record(3, 1, 1, 1, 1)])]);
    let mut taxa = TaxonMap::new();
    taxa.insert(1, 0);
    taxa.insert(2, 1);
    let mut lineages = LineageMap::new();
    lineages.insert(3, "Bacteria".to_string());
    let groups = group_pnps(&t, &GeneMap::new(), &taxa, &lineages);
    let m = write_grouped_output(&t, &groups, ResultType::Ps);
    assert_eq!(m.rows[0].lineage, Lineage::Literal("".to_string()));
    assert_eq!(m.rows[1].lineage, Lineage::OfTaxon(1));
    assert_eq!(m.rows[2].lineage, Lineage::Literal("Bacteria".to_string()));
    assert_eq!(m.rows[2].key.taxon_id, 0);
}

#[test]
fn headers_name_the_key_columns_then_the_samples() {
    let t = table(vec![("A", vec![record(1, 1, 1, 1, 1)]), ("B", vec![])]);
    assert_eq!(write_output(&t, ResultType::Pn).header(), vec!["uid", "A", "B"]);
    let groups = group_pnps(&t, &GeneMap::new(), &TaxonMap::new(), &LineageMap::new());
    assert_eq!(
        write_grouped_output(&t, &groups, ResultType::Pn).header(),
        vec!["gene_id", "taxon", "lineage", "A", "B"]
    );
}

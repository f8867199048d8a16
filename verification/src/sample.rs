//! The samples of a run and the initial counters of each.

use vstd::prelude::*;
use crate::lookup::{lemma_first_index, lemma_index_meaning, lemma_no_index, lemma_push_distinct, same_slot};
use crate::record::{distinct_uids, ids_of, sample_slot_of, uids_of, PnPsRecord, SamplePnPs};
use crate::text::{chars_of, is_comment, names_of, split_fields, splits, trim_bounds, trimmed};

verus! {

/// One sample as named in the sample configuration: the display id under
/// which it is reported, the column of the variant file that holds its
/// calls, and the file with its depth.
#[derive(Clone, Debug, PartialEq, Eq)]
pub struct SampleEntry {
    pub sample_id: String,
    pub vcf_column: String,
    pub depth_file: String,
}

/// The variant-file columns of `entries`, position by position.
pub open spec fn columns_of(entries: Seq<SampleEntry>) -> Seq<Seq<char>> {
    entries.map_values(|e: SampleEntry| e.vcf_column@)
}

/// The display ids of `entries`, position by position.
pub open spec fn display_of(entries: Seq<SampleEntry>) -> Seq<Seq<char>> {
    entries.map_values(|e: SampleEntry| e.sample_id@)
}

/// Finds the first entry whose variant-file column is `column`.
pub fn find_entry(entries: &Vec<SampleEntry>, column: &String) -> (found: Option<usize>)
    ensures
        same_slot(found, columns_of(entries@).index_of_first(column@)),
        found matches Some(i) ==> i < entries@.len() && entries@[i as int].vcf_column@ == column@,
{
    let mut i: usize = 0;
    while i < entries.len()
        invariant
            i <= entries.len(),
            forall|j: int| 0 <= j < i ==> columns_of(entries@)[j] != column@,
        decreases entries.len() - i,
    {
        if entries[i].vcf_column.eq(column) {
            proof {
                lemma_first_index(columns_of(entries@), column@, i as int);
            }
            return Some(i);
        }
        i += 1;
    }
    proof {
        lemma_no_index(columns_of(entries@), column@);
    }
    None
}

/// The depth measured for annotation `i`: 0 where the depth data do not
/// mention the annotation's reference sequence, or where nothing was
/// measured for it.
pub open spec fn measured(coverage: Seq<Option<u32>>, i: int) -> u32 {
    if 0 <= i < coverage.len() {
        match coverage[i] {
            Some(depth) => depth,
            None => 0,
        }
    } else {
        0
    }
}

/// The record with which a sample starts for an annotation of the
/// baseline: the baseline's expectations, nothing observed, and the
/// coverage measured.
pub open spec fn initial_record(base: PnPsRecord, coverage: u32) -> PnPsRecord {
    PnPsRecord {
        uid: base.uid,
        exp_syn: base.exp_syn,
        exp_nonsyn: base.exp_nonsyn,
        syn: 0,
        nonsyn: 0,
        coverage,
    }
}

/// The initial records of a sample for the first `n` annotations of the
/// baseline: one for each annotation whose coverage reaches `min_cov`.
pub open spec fn retained(
    baseline: Seq<PnPsRecord>,
    coverage: Seq<Option<u32>>,
    min_cov: u32,
    n: nat,
) -> Seq<PnPsRecord>
    decreases n,
{
    if n == 0 {
        Seq::empty()
    } else {
        let before = retained(baseline, coverage, min_cov, (n - 1) as nat);
        if measured(coverage, n - 1) >= min_cov {
            before.push(initial_record(baseline[n - 1], measured(coverage, n - 1)))
        } else {
            before
        }
    }
}

/// Every retained record has the coverage asked for and nothing observed,
/// and stands for an annotation of the baseline.
pub proof fn lemma_retained(
    baseline: Seq<PnPsRecord>,
    coverage: Seq<Option<u32>>,
    min_cov: u32,
    n: nat,
)
    requires
        n <= baseline.len(),
    ensures
        retained(baseline, coverage, min_cov, n).len() <= n,
        forall|k: int|
            0 <= k < retained(baseline, coverage, min_cov, n).len() ==> {
                let record = #[trigger] retained(baseline, coverage, min_cov, n)[k];
                &&& record.coverage >= min_cov
                &&& record.unobserved()
                &&& exists|j: int|
                    0 <= j < n && record == initial_record(
                        #[trigger] baseline[j],
                        measured(coverage, j),
                    )
            },
        distinct_uids(baseline) ==> distinct_uids(retained(baseline, coverage, min_cov, n)),
    decreases n,
{
    if n > 0 {
        lemma_retained(baseline, coverage, min_cov, (n - 1) as nat);
        let before = retained(baseline, coverage, min_cov, (n - 1) as nat);
        let now = retained(baseline, coverage, min_cov, n);
        if measured(coverage, n - 1) >= min_cov && distinct_uids(baseline) {
            let added = initial_record(baseline[n - 1], measured(coverage, n - 1));
            assert forall|k: int| 0 <= k < before.len() implies uids_of(before)[k]
                != added.uid by {
                let j = choose|j: int|
                    0 <= j < n - 1 && before[k] == initial_record(
                        #[trigger] baseline[j],
                        measured(coverage, j),
                    );
                assert(uids_of(baseline)[j] != uids_of(baseline)[n - 1]);
            }
            lemma_push_distinct(uids_of(before), added.uid);
            assert(uids_of(now) =~= uids_of(before).push(added.uid));
        }
    }
}

/// The initial records of one sample: for each annotation of the baseline
/// whose coverage is at least `min_cov`, an unobserved record with the
/// baseline's expectations and that coverage. `coverage[i]` belongs to
/// `baseline[i]`.
pub fn prepare_sample_pnps(
    baseline: &Vec<PnPsRecord>,
    coverage: &Vec<Option<u32>>,
    min_cov: u32,
) -> (out: Vec<PnPsRecord>)
    ensures
        out@ == retained(baseline@, coverage@, min_cov, baseline@.len()),
        forall|k: int| 0 <= k < out@.len() ==> (#[trigger] out@[k]).coverage >= min_cov,
        forall|k: int| 0 <= k < out@.len() ==> (#[trigger] out@[k]).unobserved(),
        distinct_uids(baseline@) ==> distinct_uids(out@),
{
    let mut out: Vec<PnPsRecord> = Vec::new();
    let mut i: usize = 0;
    while i < baseline.len()
        invariant
            i <= baseline.len(),
            out@ == retained(baseline@, coverage@, min_cov, i as nat),
        decreases baseline.len() - i,
    {
        let depth = if i < coverage.len() {
            match coverage[i] {
                Some(depth) => depth,
                None => 0,
            }
        } else {
            0
        };
        if depth >= min_cov {
            let base = baseline[i];
            out.push(
                PnPsRecord {
                    uid: base.uid,
                    exp_syn: base.exp_syn,
                    exp_nonsyn: base.exp_nonsyn,
                    syn: 0,
                    nonsyn: 0,
                    coverage: depth,
                },
            );
        }
        i += 1;
    }
    proof {
        lemma_retained(baseline@, coverage@, min_cov, baseline@.len());
    }
    out
}

/// `i` is the place of the largest coverage among `records`: the last one,
/// where several records share it.
pub open spec fn is_max_coverage(records: Seq<PnPsRecord>, i: int) -> bool {
    &&& 0 <= i < records.len()
    &&& forall|j: int| 0 <= j < records.len() ==> (#[trigger] records[j]).coverage <= records[i].coverage
    &&& forall|j: int| i < j < records.len() ==> (#[trigger] records[j]).coverage < records[i].coverage
}

/// The place of the record with the largest coverage; none for a sample
/// that retained nothing.
pub fn max_coverage(records: &Vec<PnPsRecord>) -> (out: Option<usize>)
    ensures
        out is None <==> records@.len() == 0,
        out matches Some(i) ==> is_max_coverage(records@, i as int),
{
    if records.len() == 0 {
        return None;
    }
    let mut best: usize = 0;
    let mut i: usize = 1;
    while i < records.len()
        invariant
            1 <= i <= records.len(),
            best < i,
            forall|j: int| 0 <= j < i ==> (#[trigger] records@[j]).coverage <= records@[best as int].coverage,
            forall|j: int| best < j < i ==> (#[trigger] records@[j]).coverage < records@[best as int].coverage,
        decreases records.len() - i,
    {
        if records[i].coverage >= records[best].coverage {
            best = i;
        }
        i += 1;
    }
    Some(best)
}

/// Adds one sample to the table: prepares its initial records from the
/// baseline and the coverage measured, files them under `sample_id`, and
/// hands out the record with the largest coverage, if any was retained.
pub fn add_depth_sample_data(
    table: &mut SamplePnPs,
    sample_id: String,
    baseline: &Vec<PnPsRecord>,
    coverage: &Vec<Option<u32>>,
    min_cov: u32,
) -> (out: Option<PnPsRecord>)
    ensures
        old(table).wf() && distinct_uids(baseline@) ==> final(table).wf(),
        old(table).unobserved() ==> final(table).unobserved(),
        match sample_slot_of(old(table).samples@, sample_id@) {
            Some(i) => {
                &&& final(table).samples@.len() == old(table).samples@.len()
                &&& final(table).samples@[i].sample_id@ == sample_id@
                &&& final(table).samples@[i].records@ == retained(
                    baseline@,
                    coverage@,
                    min_cov,
                    baseline@.len(),
                )
                &&& forall|j: int|
                    0 <= j < old(table).samples@.len() && j != i ==> final(table).samples@[j]
                        == old(table).samples@[j]
            },
            None => {
                &&& final(table).samples@.len() == old(table).samples@.len() + 1
                &&& final(table).samples@.last().sample_id@ == sample_id@
                &&& final(table).samples@.last().records@ == retained(
                    baseline@,
                    coverage@,
                    min_cov,
                    baseline@.len(),
                )
                &&& forall|j: int|
                    0 <= j < old(table).samples@.len() ==> final(table).samples@[j] == old(
                        table,
                    ).samples@[j]
            },
        },
        out is None <==> retained(baseline@, coverage@, min_cov, baseline@.len()).len() == 0,
        out matches Some(top) ==> exists|i: int|
            is_max_coverage(retained(baseline@, coverage@, min_cov, baseline@.len()), i) && top
                == #[trigger] retained(baseline@, coverage@, min_cov, baseline@.len())[i],
{
    let records = prepare_sample_pnps(baseline, coverage, min_cov);
    let out = match max_coverage(&records) {
        Some(i) => Some(records[i]),
        None => None,
    };
    let ghost before = table.samples@;
    let ghost fresh = records@;
    proof {
        lemma_index_meaning(ids_of(before), sample_id@);
    }
    table.insert(sample_id, records);
    proof {
        if old(table).unobserved() {
            assert forall|s: int, r: int|
                0 <= s < table.samples@.len() && 0 <= r < table.samples@[s].records@.len() implies (
            #[trigger] table.samples@[s].records@[r]).unobserved() by {
                if table.samples@[s].records@ == fresh {
                    assert(fresh[r].unobserved());
                } else {
                    assert(table.samples@[s] == before[s]);
                    assert(before[s].records@[r].unobserved());
                }
            }
        }
    }
    out
}

/// Why a sample configuration cannot be read.
#[derive(Clone, Copy, Debug, PartialEq, Eq, Structural)]
pub enum SampleInfoError {
    /// Line number `line` (from 0) has `columns` columns, fewer than three.
    TooFewColumns { line: usize, columns: usize },
}

/// What a sample entry says, as plain text.
pub struct EntryText {
    pub sample_id: Seq<char>,
    pub vcf_column: Seq<char>,
    pub depth_file: Seq<char>,
}

/// What `entries` say, position by position.
pub open spec fn entry_texts(entries: Seq<SampleEntry>) -> Seq<EntryText> {
    entries.map_values(
        |e: SampleEntry|
            EntryText { sample_id: e.sample_id@, vcf_column: e.vcf_column@, depth_file: e.depth_file@ },
    )
}

/// The variant-file columns of `entries`, position by position.
pub open spec fn text_columns(entries: Seq<EntryText>) -> Seq<Seq<char>> {
    entries.map_values(|e: EntryText| e.vcf_column)
}

/// `list` after `entry` was filed in it: in the place of the first entry
/// for the same variant-file column, or at the end when there is none.
pub open spec fn with_entry(list: Seq<EntryText>, entry: EntryText) -> Seq<EntryText> {
    match text_columns(list).index_of_first(entry.vcf_column) {
        Some(i) => list.update(i, entry),
        None => list.push(entry),
    }
}

/// What the first `n` lines of a sample configuration say: for each line
/// that is no comment, the display id in the first column, the
/// variant-file column in the second, the depth file in the third, once
/// the white space around the line is cut off; or the first line with
/// fewer than three columns.
pub open spec fn parsed_config(lines: Seq<Seq<char>>, n: nat) -> Result<
    Seq<EntryText>,
    SampleInfoError,
>
    decreases n,
{
    if n == 0 {
        Ok(Seq::empty())
    } else {
        match parsed_config(lines, (n - 1) as nat) {
            Err(error) => Err(error),
            Ok(list) => {
                let line = lines[n - 1];
                let fields = splits(trimmed(line), '\t');
                if is_comment(line) {
                    Ok(list)
                } else if fields.len() < 3 {
                    Err(
                        SampleInfoError::TooFewColumns {
                            line: (n - 1) as usize,
                            columns: fields.len() as usize,
                        },
                    )
                } else {
                    Ok(
                        with_entry(
                            list,
                            EntryText {
                                sample_id: fields[0],
                                vcf_column: fields[1],
                                depth_file: fields[2],
                            },
                        ),
                    )
                }
            },
        }
    }
}

/// Once a line is refused, the configuration is refused with that line.
pub proof fn lemma_parsed_config_stays(lines: Seq<Seq<char>>, n: nat, m: nat)
    requires
        n <= m,
        parsed_config(lines, n) is Err,
    ensures
        parsed_config(lines, m) == parsed_config(lines, n),
    decreases m - n,
{
    if n < m {
        lemma_parsed_config_stays(lines, n, (m - 1) as nat);
    }
}

/// Files `entry` in `list`.
fn file_entry(list: &mut Vec<SampleEntry>, entry: SampleEntry)
    ensures
        entry_texts(final(list)@) == with_entry(
            entry_texts(old(list)@),
            EntryText {
                sample_id: entry.sample_id@,
                vcf_column: entry.vcf_column@,
                depth_file: entry.depth_file@,
            },
        ),
{
    let ghost before = list@;
    let ghost text = EntryText {
        sample_id: entry.sample_id@,
        vcf_column: entry.vcf_column@,
        depth_file: entry.depth_file@,
    };
    assert(text_columns(entry_texts(before)) =~= columns_of(before));
    match find_entry(list, &entry.vcf_column) {
        Some(i) => {
            list.set(i, entry);
            assert(entry_texts(list@) =~= entry_texts(before).update(i as int, text));
        },
        None => {
            list.push(entry);
            assert(entry_texts(list@) =~= entry_texts(before).push(text));
        },
    }
}

/// Reads a sample configuration, line by line.
pub fn read_config_file(lines: &Vec<String>) -> (out: Result<Vec<SampleEntry>, SampleInfoError>)
    ensures
        match out {
            Ok(entries) => parsed_config(names_of(lines@), lines@.len()) == Ok::<
                Seq<EntryText>,
                SampleInfoError,
            >(entry_texts(entries@)),
            Err(error) => parsed_config(names_of(lines@), lines@.len()) == Err::<
                Seq<EntryText>,
                SampleInfoError,
            >(error),
        },
{
    let mut entries: Vec<SampleEntry> = Vec::new();
    let mut i: usize = 0;
    assert(entry_texts(entries@) =~= Seq::<EntryText>::empty());
    while i < lines.len()
        invariant
            i <= lines.len(),
            parsed_config(names_of(lines@), i as nat) == Ok::<Seq<EntryText>, SampleInfoError>(
                entry_texts(entries@),
            ),
        decreases lines.len() - i,
    {
        let chars = chars_of(lines[i].as_str());
        assert(names_of(lines@)[i as int] == chars@);
        if !(chars.len() == 0 || chars[0] == '#') {
            let (from, to) = trim_bounds(&chars);
            let mut fields = split_fields(&chars, from, to, '\t');
            if fields.len() < 3 {
                proof {
                    lemma_parsed_config_stays(names_of(lines@), (i + 1) as nat, lines@.len());
                }
                return Err(SampleInfoError::TooFewColumns { line: i, columns: fields.len() });
            }
            let depth_file = fields.swap_remove(2);
            let vcf_column = fields.swap_remove(1);
            let sample_id = fields.swap_remove(0);
            file_entry(&mut entries, SampleEntry { sample_id, vcf_column, depth_file });
        }
        i += 1;
    }
    Ok(entries)
}

} // verus!

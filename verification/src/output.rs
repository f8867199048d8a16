//! The output projector: which ratio is reported, the cells of the
//! sample-by-entity matrix, and the rule that drops a row.
//!
//! A ratio is kept exact, as numerator and denominator. In double
//! precision the quotient of two counters is a normal number exactly when
//! both are positive: counters are below 2 to the power 128, so such a
//! quotient is neither zero nor too small nor too large, and a zero in
//! either place gives zero, infinity or no number at all.

use vstd::prelude::*;
use vstd::string::*;
use crate::places::{
    code_of_uid, lemma_no_candidate, lemma_positions, positions_of, uid_code, uid_codes, Places,
};
use crate::record::{
    find_record_by_code, ids_of, index_records, slot_of, uids_of, PnPsRecord, SamplePnPs,
    SampleTable,
};
use crate::text::names_of;

verus! {

/// Which ratio is reported.
#[derive(Clone, Copy, Debug, PartialEq, Eq, Structural)]
pub enum ResultType {
    /// pN / pS
    PnPs,
    /// nonsynonymous substitutions per opportunity
    Pn,
    /// synonymous substitutions per opportunity
    Ps,
}

/// The ratio chosen by the two switches: pN or pS when exactly that one is
/// asked for, pN/pS otherwise.
pub open spec fn chosen(output_pn: bool, output_ps: bool) -> ResultType {
    if output_pn && !output_ps {
        ResultType::Pn
    } else if !output_pn && output_ps {
        ResultType::Ps
    } else {
        ResultType::PnPs
    }
}

/// Chooses the ratio to report.
pub fn result_type(output_pn: bool, output_ps: bool) -> (out: ResultType)
    ensures
        out == chosen(output_pn, output_ps),
{
    if output_pn && !output_ps {
        ResultType::Pn
    } else if !output_pn && output_ps {
        ResultType::Ps
    } else {
        ResultType::PnPs
    }
}

/// The counters of one record, or of several records added up.
#[derive(Clone, Copy, Debug, PartialEq, Eq, Structural)]
pub struct Totals {
    pub exp_syn: u128,
    pub exp_nonsyn: u128,
    pub syn: u128,
    pub nonsyn: u128,
}

/// The quotient `num / den`, kept exact.
#[derive(Clone, Copy, Debug, PartialEq, Eq, Structural)]
pub struct Ratio {
    pub num: u128,
    pub den: u128,
}

/// One cell of the matrix.
#[derive(Clone, Copy, Debug, PartialEq, Eq, Structural)]
pub enum Cell {
    /// The sample has no record for the row.
    Missing,
    /// pN or pS.
    Single(Ratio),
    /// pN / pS: the first ratio divided by the second.
    Quotient(Ratio, Ratio),
}

impl Totals {
    /// pN: nonsynonymous substitutions per opportunity.
    pub open spec fn pn(self) -> Ratio {
        Ratio { num: self.nonsyn, den: self.exp_nonsyn }
    }

    /// pS: synonymous substitutions per opportunity.
    pub open spec fn ps(self) -> Ratio {
        Ratio { num: self.syn, den: self.exp_syn }
    }

    /// The cell that reports the ratio `kind` of these counters.
    pub open spec fn spec_cell(self, kind: ResultType) -> Cell {
        match kind {
            ResultType::Pn => Cell::Single(self.pn()),
            ResultType::Ps => Cell::Single(self.ps()),
            ResultType::PnPs => Cell::Quotient(self.pn(), self.ps()),
        }
    }

    /// The cell that reports the ratio `kind` of these counters.
    #[verifier::when_used_as_spec(spec_cell)]
    pub fn cell(self, kind: ResultType) -> (out: Cell)
        ensures
            out == self.spec_cell(kind),
    {
        let pn = Ratio { num: self.nonsyn, den: self.exp_nonsyn };
        let ps = Ratio { num: self.syn, den: self.exp_syn };
        match kind {
            ResultType::Pn => Cell::Single(pn),
            ResultType::Ps => Cell::Single(ps),
            ResultType::PnPs => Cell::Quotient(pn, ps),
        }
    }
}

/// The counters of one record.
pub open spec fn totals_of_record(record: PnPsRecord) -> Totals {
    Totals {
        exp_syn: record.exp_syn as u128,
        exp_nonsyn: record.exp_nonsyn as u128,
        syn: record.syn as u128,
        nonsyn: record.nonsyn as u128,
    }
}

impl Ratio {
    /// The ratio is a positive finite number.
    pub open spec fn spec_is_normal(self) -> bool {
        self.num > 0 && self.den > 0
    }

    /// Whether the ratio is a positive finite number.
    #[verifier::when_used_as_spec(spec_is_normal)]
    pub fn is_normal(self) -> (out: bool)
        ensures
            out == self.spec_is_normal(),
    {
        self.num > 0 && self.den > 0
    }
}

impl Cell {
    /// The cell holds a value that is neither absent nor zero nor
    /// infinite nor undefined: the one predicate by which rows are kept.
    pub open spec fn spec_is_normal(self) -> bool {
        match self {
            Cell::Missing => false,
            Cell::Single(ratio) => ratio.spec_is_normal(),
            Cell::Quotient(pn, ps) => pn.spec_is_normal() && ps.spec_is_normal(),
        }
    }

    /// Whether the cell holds a usable value.
    #[verifier::when_used_as_spec(spec_is_normal)]
    pub fn is_normal(self) -> (out: bool)
        ensures
            out == self.spec_is_normal(),
    {
        match self {
            Cell::Missing => false,
            Cell::Single(ratio) => ratio.is_normal(),
            Cell::Quotient(pn, ps) => pn.is_normal() && ps.is_normal(),
        }
    }
}

/// At least one of `cells` is usable.
pub open spec fn usable(cells: Seq<Cell>) -> bool {
    exists|i: int| 0 <= i < cells.len() && (#[trigger] cells[i]).spec_is_normal()
}

/// Whether a row with these cells is written.
pub fn is_usable(cells: &Vec<Cell>) -> (out: bool)
    ensures
        out == usable(cells@),
{
    let mut i: usize = 0;
    while i < cells.len()
        invariant
            i <= cells.len(),
            forall|j: int| 0 <= j < i ==> !(#[trigger] cells@[j]).spec_is_normal(),
        decreases cells.len() - i,
    {
        if cells[i].is_normal() {
            return true;
        }
        i += 1;
    }
    false
}

/// The keys of `keys` in the order in which each is first seen.
pub open spec fn first_seen<K>(keys: Seq<K>) -> Seq<K>
    decreases keys.len(),
{
    if keys.len() == 0 {
        Seq::empty()
    } else {
        let before = first_seen(keys.drop_last());
        if before.contains(keys.last()) {
            before
        } else {
            before.push(keys.last())
        }
    }
}

/// `first_seen` lists every key once, and no other.
pub proof fn lemma_first_seen<K>(keys: Seq<K>)
    ensures
        first_seen(keys).no_duplicates(),
        forall|k: K| first_seen(keys).contains(k) <==> keys.contains(k),
    decreases keys.len(),
{
    if keys.len() > 0 {
        let front = keys.drop_last();
        let before = first_seen(front);
        let now = first_seen(keys);
        lemma_first_seen(front);
        assert forall|k: K| now.contains(k) <==> keys.contains(k) by {
            if now.contains(k) {
                let i = choose|i: int| 0 <= i < now.len() && now[i] == k;
                if i < before.len() {
                    assert(before[i] == k);
                    assert(before.contains(k));
                    assert(front.contains(k));
                    let j = choose|j: int| 0 <= j < front.len() && front[j] == k;
                    assert(keys[j] == k);
                } else {
                    assert(keys[keys.len() - 1] == k);
                }
            }
            if keys.contains(k) {
                let j = choose|j: int| 0 <= j < keys.len() && keys[j] == k;
                if j < front.len() {
                    assert(front[j] == k);
                    assert(front.contains(k));
                    assert(before.contains(k));
                    let i = choose|i: int| 0 <= i < before.len() && before[i] == k;
                    assert(now[i] == k);
                } else {
                    if before.contains(keys.last()) {
                        let i = choose|i: int| 0 <= i < before.len() && before[i] == keys.last();
                        assert(now[i] == k);
                    } else {
                        assert(now[now.len() - 1] == k);
                    }
                }
            }
        }
    }
}

/// Under a mapping that sends different keys to different values, the
/// first-seen order of the values is that of the keys.
pub proof fn lemma_first_seen_mapped<A, B>(keys: Seq<A>, f: spec_fn(A) -> B)
    requires
        forall|x: A, y: A| #[trigger] f(x) == #[trigger] f(y) ==> x == y,
    ensures
        first_seen(keys.map_values(f)) == first_seen(keys).map_values(f),
    decreases keys.len(),
{
    if keys.len() == 0 {
        assert(first_seen(keys.map_values(f)) =~= first_seen(keys).map_values(f));
    } else {
        let front = keys.drop_last();
        lemma_first_seen_mapped(front, f);
        assert(keys.map_values(f).drop_last() =~= front.map_values(f));
        assert(keys.map_values(f).last() == f(keys.last()));
        let before = first_seen(front);
        let mapped = before.map_values(f);
        if before.contains(keys.last()) {
            let i = choose|i: int| 0 <= i < before.len() && before[i] == keys.last();
            assert(mapped[i] == f(keys.last()));
        }
        if mapped.contains(f(keys.last())) {
            let i = choose|i: int| 0 <= i < mapped.len() && mapped[i] == f(keys.last());
            assert(f(before[i]) == f(keys.last()));
            assert(before[i] == keys.last());
        }
        assert(first_seen(keys.map_values(f)) =~= first_seen(keys).map_values(f));
    }
}

/// A row is written for a UID exactly if the UID is among those offered
/// and its row has a usable cell.
pub proof fn lemma_kept_uids(
    table: Seq<SampleTable>,
    uids: Seq<u128>,
    kind: ResultType,
    n: nat,
    uid: u128,
)
    requires
        n <= uids.len(),
    ensures
        kept_uids(table, uids, kind, n).contains(uid) <==> (exists|i: int|
            0 <= i < n && uids[i] == uid) && usable(row_cells(table, uid, kind)),
    decreases n,
{
    if n > 0 {
        lemma_kept_uids(table, uids, kind, (n - 1) as nat, uid);
        let before = kept_uids(table, uids, kind, (n - 1) as nat);
        let now = kept_uids(table, uids, kind, n);
        if now.contains(uid) {
            let k = choose|k: int| 0 <= k < now.len() && now[k] == uid;
            if k < before.len() {
                assert(before[k] == uid);
                assert(before.contains(uid));
                let i = choose|i: int| 0 <= i < n - 1 && uids[i] == uid;
                assert(0 <= i < n && uids[i] == uid);
            } else {
                assert(uids[n - 1] == uid);
            }
        }
        if (exists|i: int| 0 <= i < n && uids[i] == uid) && usable(row_cells(table, uid, kind)) {
            let i = choose|i: int| 0 <= i < n && uids[i] == uid;
            if i < n - 1 {
                assert(before.contains(uid));
                let k = choose|k: int| 0 <= k < before.len() && before[k] == uid;
                assert(now[k] == uid);
            } else {
                assert(now[now.len() - 1] == uid);
            }
        }
    }
}

/// Every UID that a sample holds is among the UIDs of the table.
pub proof fn lemma_all_uids(table: Seq<SampleTable>, n: nat, uid: u128)
    requires
        n <= table.len(),
    ensures
        all_uids(table, n).contains(uid) <==> exists|s: int|
            0 <= s < n && uids_of((#[trigger] table[s]).records@).contains(uid),
    decreases n,
{
    if n > 0 {
        lemma_all_uids(table, (n - 1) as nat, uid);
        let before = all_uids(table, (n - 1) as nat);
        let here = uids_of(table[n - 1].records@);
        let now = all_uids(table, n);
        if now.contains(uid) {
            let k = choose|k: int| 0 <= k < now.len() && now[k] == uid;
            if k < before.len() {
                assert(before[k] == uid);
                assert(before.contains(uid));
                let s = choose|s: int|
                    0 <= s < n - 1 && uids_of((#[trigger] table[s]).records@).contains(uid);
                assert(0 <= s < n && uids_of(table[s].records@).contains(uid));
            } else {
                assert(here[k - before.len()] == uid);
                assert(uids_of(table[n - 1].records@).contains(uid));
            }
        }
        if exists|s: int| 0 <= s < n && uids_of((#[trigger] table[s]).records@).contains(uid) {
            let s = choose|s: int|
                0 <= s < n && uids_of((#[trigger] table[s]).records@).contains(uid);
            if s < n - 1 {
                assert(before.contains(uid));
                let k = choose|k: int| 0 <= k < before.len() && before[k] == uid;
                assert(now[k] == uid);
            } else {
                let k = choose|k: int| 0 <= k < here.len() && here[k] == uid;
                assert(now[before.len() + k] == uid);
            }
        }
    }
}

/// The row-drop rule: a row is written for a UID exactly if some sample
/// holds the UID and at least one cell of its row is usable.
pub proof fn lemma_row_written(table: Seq<SampleTable>, kind: ResultType, uid: u128)
    ensures
        kept_uids(table, row_uids(table), kind, row_uids(table).len()).contains(uid) <==> (
        exists|s: int| 0 <= s < table.len() && uids_of((#[trigger] table[s]).records@).contains(uid))
            && usable(row_cells(table, uid, kind)),
{
    let rows = row_uids(table);
    lemma_kept_uids(table, rows, kind, rows.len(), uid);
    lemma_first_seen(all_uids(table, table.len()));
    lemma_all_uids(table, table.len(), uid);
    if rows.contains(uid) {
        let i = choose|i: int| 0 <= i < rows.len() && rows[i] == uid;
        assert(0 <= i < rows.len() && rows[i] == uid);
    }
    if exists|i: int| 0 <= i < rows.len() && rows[i] == uid {
        let i = choose|i: int| 0 <= i < rows.len() && rows[i] == uid;
        assert(rows.contains(uid));
    }
}

/// A row whose cells are all absent or have nothing in the numerator is
/// not written: a value of exactly zero counts as no value.
pub proof fn lemma_zero_row_dropped(cells: Seq<Cell>)
    requires
        forall|i: int|
            0 <= i < cells.len() ==> match #[trigger] cells[i] {
                Cell::Missing => true,
                Cell::Single(ratio) => ratio.num == 0,
                Cell::Quotient(pn, ps) => pn.num == 0,
            },
    ensures
        !usable(cells),
{
}

/// A row with a cell whose counters are all positive is written.
pub proof fn lemma_positive_row_kept(cells: Seq<Cell>, i: int)
    requires
        0 <= i < cells.len(),
        match cells[i] {
            Cell::Missing => false,
            Cell::Single(ratio) => ratio.num > 0 && ratio.den > 0,
            Cell::Quotient(pn, ps) => pn.num > 0 && pn.den > 0 && ps.num > 0 && ps.den > 0,
        },
    ensures
        usable(cells),
{
}

/// The UIDs of the first `n` samples, sample after sample.
pub open spec fn all_uids(table: Seq<SampleTable>, n: nat) -> Seq<u128>
    decreases n,
{
    if n == 0 {
        Seq::empty()
    } else {
        all_uids(table, (n - 1) as nat) + uids_of(table[n - 1].records@)
    }
}

/// The rows that may be written: every UID that some sample holds, in the
/// order in which the UIDs are first seen.
pub open spec fn row_uids(table: Seq<SampleTable>) -> Seq<u128> {
    first_seen(all_uids(table, table.len()))
}

/// The cell of sample `s` in the row of `uid`.
pub open spec fn cell_at(table: Seq<SampleTable>, s: int, uid: u128, kind: ResultType) -> Cell {
    match slot_of(table[s].records@, uid) {
        Some(r) => totals_of_record(table[s].records@[r]).spec_cell(kind),
        None => Cell::Missing,
    }
}

/// The cells of the row of `uid`, one per sample in table order.
pub open spec fn row_cells(table: Seq<SampleTable>, uid: u128, kind: ResultType) -> Seq<Cell> {
    Seq::new(table.len(), |s: int| cell_at(table, s, uid, kind))
}

/// Those of the first `n` of `uids` whose row has a usable cell.
pub open spec fn kept_uids(table: Seq<SampleTable>, uids: Seq<u128>, kind: ResultType, n: nat) -> Seq<
    u128,
>
    decreases n,
{
    if n == 0 {
        Seq::empty()
    } else {
        let before = kept_uids(table, uids, kind, (n - 1) as nat);
        if usable(row_cells(table, uids[n - 1], kind)) {
            before.push(uids[n - 1])
        } else {
            before
        }
    }
}

/// One row of the ungrouped matrix.
#[derive(Clone, Debug, PartialEq, Eq)]
pub struct Row {
    pub uid: u128,
    pub cells: Vec<Cell>,
}

/// The ungrouped matrix: a column per sample, a row per UID.
#[derive(Clone, Debug, PartialEq, Eq)]
pub struct Matrix {
    pub samples: Vec<String>,
    pub rows: Vec<Row>,
}

/// The first line of the ungrouped matrix: `uid`, then the samples.
pub open spec fn plain_header(samples: Seq<Seq<char>>) -> Seq<Seq<char>> {
    seq!["uid"@] + samples
}

impl Matrix {
    /// The first line of the matrix.
    pub fn header(&self) -> (out: Vec<String>)
        ensures
            names_of(out@) == plain_header(names_of(self.samples@)),
    {
        let mut out: Vec<String> = Vec::new();
        out.push(String::from_str("uid"));
        let mut i: usize = 0;
        assert(names_of(out@) =~= seq!["uid"@] + names_of(self.samples@).take(0));
        while i < self.samples.len()
            invariant
                i <= self.samples.len(),
                names_of(out@) == seq!["uid"@] + names_of(self.samples@).take(i as int),
            decreases self.samples.len() - i,
        {
            let ghost before = names_of(out@);
            out.push(self.samples[i].clone());
            assert(names_of(out@) =~= before.push(self.samples@[i as int]@));
            assert(names_of(out@) =~= seq!["uid"@] + names_of(self.samples@).take(i + 1));
            i += 1;
        }
        assert(names_of(self.samples@).take(self.samples@.len() as int) =~= names_of(
            self.samples@,
        ));
        out
    }
}

/// The UIDs of `rows`, position by position.
pub open spec fn uids_of_rows(rows: Seq<Row>) -> Seq<u128> {
    rows.map_values(|row: Row| row.uid)
}

/// Whether `uid` is one of `keys`, looking only at the keys that `places`
/// files under the UID's code.
fn has_uid(keys: &Vec<u128>, places: &Places, uid: u128) -> (out: bool)
    requires
        places.wf(),
        places.codes() == uid_codes(keys@),
    ensures
        out == keys@.contains(uid),
{
    let candidates = places.candidates(code_of_uid(uid));
    let ghost codes = places.codes();
    proof {
        assert(keys.len() == keys@.len());
        lemma_positions(codes, uid_code(uid), codes.len());
    }
    let mut j: usize = 0;
    while j < candidates.len()
        invariant
            j <= candidates@.len(),
            codes == uid_codes(keys@),
            keys@.len() <= usize::MAX,
            candidates@ == positions_of(codes, uid_code(uid), codes.len()),
            forall|k: int| 0 <= k < candidates@.len() ==> (#[trigger] candidates@[k]) < keys@.len(),
            forall|k: int| 0 <= k < j ==> keys@[(#[trigger] candidates@[k]) as int] != uid,
        decreases candidates.len() - j,
    {
        if keys[candidates[j]] == uid {
            return true;
        }
        j += 1;
    }
    proof {
        lemma_no_candidate(keys@, codes, uid, uid_code(uid));
    }
    false
}

/// The UIDs that some sample holds, in the order in which they are first
/// seen.
pub fn union_of_uids(table: &SamplePnPs) -> (out: Vec<u128>)
    ensures
        out@ == row_uids(table.samples@),
{
    let mut keys: Vec<u128> = Vec::new();
    let mut places = Places::new();
    let mut s: usize = 0;
    assert(uid_codes(keys@) =~= Seq::<u64>::empty());
    while s < table.samples.len()
        invariant
            s <= table.samples.len(),
            keys@ == first_seen(all_uids(table.samples@, s as nat)),
            places.wf(),
            places.codes() == uid_codes(keys@),
        decreases table.samples.len() - s,
    {
        let records = &table.samples[s].records;
        let ghost done = all_uids(table.samples@, s as nat);
        let ghost here = uids_of(records@);
        let mut r: usize = 0;
        assert(done + here.take(0) =~= done);
        while r < records.len()
            invariant
                r <= records.len(),
                here == uids_of(records@),
                keys@ == first_seen(done + here.take(r as int)),
                places.wf(),
                places.codes() == uid_codes(keys@),
            decreases records.len() - r,
        {
            let uid = records[r].uid;
            proof {
                let grown = done + here.take(r + 1);
                assert(grown.drop_last() =~= done + here.take(r as int));
                assert(grown.last() == uid);
            }
            if !has_uid(&keys, &places, uid) {
                let ghost before = keys@;
                keys.push(uid);
                proof {
                    assert(keys.len() == keys@.len());
                }
                places.push(code_of_uid(uid));
                assert(uid_codes(keys@) =~= uid_codes(before).push(uid_code(uid)));
            }
            r += 1;
        }
        assert(here.take(records@.len() as int) =~= here);
        s += 1;
    }
    keys
}

/// `places` files, sample by sample, the UIDs of the sample's records.
pub open spec fn places_fit(table: Seq<SampleTable>, places: Seq<Places>) -> bool {
    &&& places.len() == table.len()
    &&& forall|s: int|
        0 <= s < places.len() ==> (#[trigger] places[s]).wf() && places[s].codes() == uid_codes(
            uids_of(table[s].records@),
        )
}

/// Files the UIDs of every sample's records by code.
fn index_table(table: &SamplePnPs) -> (out: Vec<Places>)
    ensures
        places_fit(table.samples@, out@),
{
    let mut out: Vec<Places> = Vec::new();
    let mut s: usize = 0;
    while s < table.samples.len()
        invariant
            s <= table.samples.len(),
            out@.len() == s,
            forall|t: int|
                0 <= t < s ==> (#[trigger] out@[t]).wf() && out@[t].codes() == uid_codes(
                    uids_of(table.samples@[t].records@),
                ),
        decreases table.samples.len() - s,
    {
        out.push(index_records(&table.samples[s].records));
        s += 1;
    }
    out
}

/// The cells of the row of `uid`, found through `places`.
fn cells_of_uid(table: &SamplePnPs, places: &Vec<Places>, uid: u128, kind: ResultType) -> (out:
    Vec<Cell>)
    requires
        places_fit(table.samples@, places@),
    ensures
        out@ == row_cells(table.samples@, uid, kind),
{
    let mut cells: Vec<Cell> = Vec::new();
    let mut s: usize = 0;
    while s < table.samples.len()
        invariant
            s <= table.samples.len(),
            places_fit(table.samples@, places@),
            cells@.len() == s,
            forall|t: int| 0 <= t < s ==> cells@[t] == cell_at(table.samples@, t, uid, kind),
        decreases table.samples.len() - s,
    {
        let records = &table.samples[s].records;
        assert(places@[s as int].wf());
        let cell = match find_record_by_code(records, &places[s], uid) {
            Some(r) => {
                let record = records[r];
                let totals = Totals {
                    exp_syn: record.exp_syn as u128,
                    exp_nonsyn: record.exp_nonsyn as u128,
                    syn: record.syn as u128,
                    nonsyn: record.nonsyn as u128,
                };
                totals.cell(kind)
            },
            None => Cell::Missing,
        };
        cells.push(cell);
        s += 1;
    }
    assert(cells@ =~= row_cells(table.samples@, uid, kind));
    cells
}

/// The display ids of the samples, in table order.
pub fn sample_names(table: &SamplePnPs) -> (out: Vec<String>)
    ensures
        names_of(out@) == ids_of(table.samples@),
{
    let mut names: Vec<String> = Vec::new();
    let mut s: usize = 0;
    while s < table.samples.len()
        invariant
            s <= table.samples.len(),
            names@.len() == s,
            forall|t: int| 0 <= t < s ==> (#[trigger] names@[t])@ == table.samples@[t].sample_id@,
        decreases table.samples.len() - s,
    {
        names.push(table.samples[s].sample_id.clone());
        s += 1;
    }
    assert(names_of(names@) =~= ids_of(table.samples@));
    names
}

/// `matrix` is the ungrouped matrix of `table`: a column per sample in
/// table order; a row for every UID that some sample holds, in the order
/// in which the UIDs are first seen, unless none of its cells is usable;
/// in each row the chosen ratio of each sample, or `Missing` where the
/// sample has no record for the UID.
pub open spec fn is_plain_report(table: Seq<SampleTable>, kind: ResultType, matrix: Matrix) -> bool {
    &&& names_of(matrix.samples@) == ids_of(table)
    &&& uids_of_rows(matrix.rows@) == kept_uids(table, row_uids(table), kind, row_uids(table).len())
    &&& forall|i: int|
        0 <= i < matrix.rows@.len() ==> (#[trigger] matrix.rows@[i]).cells@ == row_cells(
            table,
            matrix.rows@[i].uid,
            kind,
        )
    &&& forall|i: int| 0 <= i < matrix.rows@.len() ==> usable((#[trigger] matrix.rows@[i]).cells@)
}

/// Lays out the ungrouped matrix.
pub fn write_output(table: &SamplePnPs, kind: ResultType) -> (out: Matrix)
    ensures
        is_plain_report(table.samples@, kind, out),
{
    let keys = union_of_uids(table);
    let places = index_table(table);
    let mut rows: Vec<Row> = Vec::new();
    let mut i: usize = 0;
    assert(uids_of_rows(rows@) =~= Seq::<u128>::empty());
    while i < keys.len()
        invariant
            i <= keys.len(),
            places_fit(table.samples@, places@),
            uids_of_rows(rows@) == kept_uids(table.samples@, keys@, kind, i as nat),
            forall|j: int|
                0 <= j < rows@.len() ==> (#[trigger] rows@[j]).cells@ == row_cells(
                    table.samples@,
                    rows@[j].uid,
                    kind,
                ),
            forall|j: int| 0 <= j < rows@.len() ==> usable((#[trigger] rows@[j]).cells@),
        decreases keys.len() - i,
    {
        let uid = keys[i];
        let cells = cells_of_uid(table, &places, uid, kind);
        if is_usable(&cells) {
            let ghost before = rows@;
            rows.push(Row { uid, cells });
            assert(uids_of_rows(rows@) =~= uids_of_rows(before).push(uid));
        }
        i += 1;
    }
    Matrix { samples: sample_names(table), rows }
}

} // verus!

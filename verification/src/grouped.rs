//! The grouped matrix: a row per group key, a column per sample.
//!
//! The counters of a group are the sums of its members' counters: the
//! ratio of a group is the ratio of those sums, not a mean of its
//! members' ratios.

use vstd::prelude::*;
use vstd::string::*;
use crate::group::{
    code_of_key, default_key, degenerate, fans_out, find_group, group_texts, grouped, groups_fit,
    index_groups, key_code, key_codes, key_texts, keys_of_groups, lemma_default_key_injective,
    lemma_degenerate_groups, lemma_fan_out, lemma_grouped, members_below, GroupKey, GroupText,
    KeyText, Mappings, SampleGroups,
};
use crate::lookup::{lemma_first_index, lemma_index_meaning, lemma_no_index};
use crate::places::{lemma_no_candidate, lemma_positions, positions_of, Places};
use crate::output::{
    all_uids, first_seen, is_usable, kept_uids, lemma_first_seen, lemma_first_seen_mapped,
    row_cells, row_uids,
    totals_of_record, usable, Cell, ResultType, Totals,
};
use crate::record::{distinct_uids, slot_of, uids_of, PnPsRecord, SamplePnPs, SampleTable};
use crate::text::names_of;

verus! {

/// Where the lineage of a row comes from.
#[derive(Clone, Debug, PartialEq, Eq)]
pub enum Lineage {
    /// The lineage as it was given.
    Literal(String),
    /// No lineage was given: it is that of this taxon, which is not 0.
    OfTaxon(u32),
}

/// Where the lineage of a row comes from, as plain values.
pub enum LineageText {
    Literal(Seq<char>),
    OfTaxon(u32),
}

impl Lineage {
    /// The lineage source as plain values.
    pub open spec fn text(self) -> LineageText {
        match self {
            Lineage::Literal(s) => LineageText::Literal(s@),
            Lineage::OfTaxon(t) => LineageText::OfTaxon(t),
        }
    }
}

/// The lineage of the rows of a key: the one stored, as it stands; where
/// none is stored, that of the key's taxon if the taxon is not 0, and the
/// empty lineage if it is.
pub open spec fn lineage_source(key: KeyText) -> LineageText {
    if key.lineage.len() == 0 && key.taxon_id != 0 {
        LineageText::OfTaxon(key.taxon_id)
    } else {
        LineageText::Literal(key.lineage)
    }
}

impl GroupKey {
    /// Where the lineage of this key's row comes from.
    pub fn lineage_of_row(&self) -> (out: Lineage)
        ensures
            out.text() == lineage_source(self.text()),
    {
        if self.taxon_id != 0 && self.lineage.as_str().unicode_len() == 0 {
            Lineage::OfTaxon(self.taxon_id)
        } else {
            Lineage::Literal(self.lineage.clone())
        }
    }
}

/// Counters added up, without bound.
pub struct Sums {
    pub exp_syn: nat,
    pub exp_nonsyn: nat,
    pub syn: nat,
    pub nonsyn: nat,
}

/// The counters of the first `n` of `members`, added up.
pub open spec fn summed(records: Seq<PnPsRecord>, members: Seq<usize>, n: nat) -> Sums
    decreases n,
{
    if n == 0 {
        Sums { exp_syn: 0, exp_nonsyn: 0, syn: 0, nonsyn: 0 }
    } else {
        let before = summed(records, members, (n - 1) as nat);
        let record = records[members[n - 1] as int];
        Sums {
            exp_syn: before.exp_syn + record.exp_syn as nat,
            exp_nonsyn: before.exp_nonsyn + record.exp_nonsyn as nat,
            syn: before.syn + record.syn as nat,
            nonsyn: before.nonsyn + record.nonsyn as nat,
        }
    }
}

/// Sums as counters.
pub open spec fn totals_of(sums: Sums) -> Totals {
    Totals {
        exp_syn: sums.exp_syn as u128,
        exp_nonsyn: sums.exp_nonsyn as u128,
        syn: sums.syn as u128,
        nonsyn: sums.nonsyn as u128,
    }
}

/// The sum of `n` counters is at most `n` times the largest counter.
pub proof fn lemma_summed_bound(records: Seq<PnPsRecord>, members: Seq<usize>, n: nat)
    ensures
        summed(records, members, n).exp_syn <= n * u64::MAX,
        summed(records, members, n).exp_nonsyn <= n * u64::MAX,
        summed(records, members, n).syn <= n * u64::MAX,
        summed(records, members, n).nonsyn <= n * u64::MAX,
    decreases n,
{
    if n > 0 {
        lemma_summed_bound(records, members, (n - 1) as nat);
    }
}

/// The counters of a group, added up.
pub fn totals_of_group(records: &Vec<PnPsRecord>, members: &Vec<usize>) -> (out: Totals)
    requires
        forall|m: int| 0 <= m < members@.len() ==> (#[trigger] members@[m]) < records@.len(),
    ensures
        out == totals_of(summed(records@, members@, members@.len())),
{
    let mut totals = Totals { exp_syn: 0, exp_nonsyn: 0, syn: 0, nonsyn: 0 };
    let mut i: usize = 0;
    while i < members.len()
        invariant
            i <= members.len(),
            forall|m: int| 0 <= m < members@.len() ==> (#[trigger] members@[m]) < records@.len(),
            totals.exp_syn == summed(records@, members@, i as nat).exp_syn,
            totals.exp_nonsyn == summed(records@, members@, i as nat).exp_nonsyn,
            totals.syn == summed(records@, members@, i as nat).syn,
            totals.nonsyn == summed(records@, members@, i as nat).nonsyn,
        decreases members.len() - i,
    {
        proof {
            lemma_summed_bound(records@, members@, i as nat);
            lemma_summed_bound(records@, members@, (i + 1) as nat);
        }
        let record = records[members[i]];
        totals = Totals {
            exp_syn: totals.exp_syn + record.exp_syn as u128,
            exp_nonsyn: totals.exp_nonsyn + record.exp_nonsyn as u128,
            syn: totals.syn + record.syn as u128,
            nonsyn: totals.nonsyn + record.nonsyn as u128,
        };
        i += 1;
    }
    totals
}

/// The cell of a sample in the row of `key`: the chosen ratio of the
/// group's summed counters, or `Missing` where the sample has no such
/// group.
pub open spec fn group_cell(
    records: Seq<PnPsRecord>,
    groups: Seq<GroupText>,
    key: KeyText,
    kind: ResultType,
) -> Cell {
    match keys_of_groups(groups).index_of_first(key) {
        Some(g) => totals_of(summed(records, groups[g].members, groups[g].members.len())).spec_cell(
            kind,
        ),
        None => Cell::Missing,
    }
}

/// The cells of the row of `key`, one per sample.
pub open spec fn group_row_cells(
    table: Seq<SampleTable>,
    groups: Seq<Seq<GroupText>>,
    key: KeyText,
    kind: ResultType,
) -> Seq<Cell> {
    Seq::new(groups.len(), |s: int| group_cell(table[s].records@, groups[s], key, kind))
}

/// The groups of each sample, as plain values.
pub open spec fn texts_of(groups: Seq<SampleGroups>) -> Seq<Seq<GroupText>> {
    groups.map_values(|g: SampleGroups| group_texts(g.groups@))
}

/// The keys of the groups of the first `n` samples, sample after sample.
pub open spec fn all_keys(groups: Seq<Seq<GroupText>>, n: nat) -> Seq<KeyText>
    decreases n,
{
    if n == 0 {
        Seq::empty()
    } else {
        all_keys(groups, (n - 1) as nat) + keys_of_groups(groups[n - 1])
    }
}

/// The rows that may be written: every key that names a group of some
/// sample, in the order in which the keys are first seen.
pub open spec fn row_keys(groups: Seq<Seq<GroupText>>) -> Seq<KeyText> {
    first_seen(all_keys(groups, groups.len()))
}

/// Those of the first `n` of `keys` whose row has a usable cell.
pub open spec fn kept_keys(
    table: Seq<SampleTable>,
    groups: Seq<Seq<GroupText>>,
    keys: Seq<KeyText>,
    kind: ResultType,
    n: nat,
) -> Seq<KeyText>
    decreases n,
{
    if n == 0 {
        Seq::empty()
    } else {
        let before = kept_keys(table, groups, keys, kind, (n - 1) as nat);
        if usable(group_row_cells(table, groups, keys[n - 1], kind)) {
            before.push(keys[n - 1])
        } else {
            before
        }
    }
}

/// One row of the grouped matrix.
#[derive(Clone, Debug, PartialEq, Eq)]
pub struct GroupRow {
    pub key: GroupKey,
    pub lineage: Lineage,
    pub cells: Vec<Cell>,
}

/// The grouped matrix.
#[derive(Clone, Debug, PartialEq, Eq)]
pub struct GroupMatrix {
    pub samples: Vec<String>,
    pub rows: Vec<GroupRow>,
}

/// The first line of the grouped matrix: `gene_id`, `taxon`, `lineage`,
/// then the samples.
pub open spec fn grouped_header(samples: Seq<Seq<char>>) -> Seq<Seq<char>> {
    seq!["gene_id"@, "taxon"@, "lineage"@] + samples
}

impl GroupMatrix {
    /// The first line of the matrix.
    pub fn header(&self) -> (out: Vec<String>)
        ensures
            names_of(out@) == grouped_header(names_of(self.samples@)),
    {
        let mut out: Vec<String> = Vec::new();
        out.push(String::from_str("gene_id"));
        out.push(String::from_str("taxon"));
        out.push(String::from_str("lineage"));
        let ghost head = seq!["gene_id"@, "taxon"@, "lineage"@];
        let mut i: usize = 0;
        assert(names_of(out@) =~= head + names_of(self.samples@).take(0));
        while i < self.samples.len()
            invariant
                i <= self.samples.len(),
                head == seq!["gene_id"@, "taxon"@, "lineage"@],
                names_of(out@) == head + names_of(self.samples@).take(i as int),
            decreases self.samples.len() - i,
        {
            let ghost before = names_of(out@);
            out.push(self.samples[i].clone());
            assert(names_of(out@) =~= before.push(self.samples@[i as int]@));
            assert(names_of(out@) =~= head + names_of(self.samples@).take(i + 1));
            i += 1;
        }
        assert(names_of(self.samples@).take(self.samples@.len() as int) =~= names_of(
            self.samples@,
        ));
        out
    }
}

/// The keys of `rows`, position by position.
pub open spec fn keys_of_rows(rows: Seq<GroupRow>) -> Seq<KeyText> {
    rows.map_values(|row: GroupRow| row.key.text())
}

/// The display ids of `groups`, position by position.
pub open spec fn group_sample_ids(groups: Seq<SampleGroups>) -> Seq<Seq<char>> {
    groups.map_values(|g: SampleGroups| g.sample_id@)
}

/// Whether `key` is one of `keys`, looking only at the keys that `places`
/// files under the key's code.
fn has_key(keys: &Vec<GroupKey>, places: &Places, key: &GroupKey) -> (out: bool)
    requires
        places.wf(),
        places.codes() == key_codes(key_texts(keys@)),
    ensures
        out == key_texts(keys@).contains(key.text()),
{
    let code = code_of_key(&key.gene_id, key.taxon_id, &key.lineage);
    let candidates = places.candidates(code);
    let ghost texts = key_texts(keys@);
    let ghost codes = places.codes();
    proof {
        assert(keys.len() == keys@.len());
        lemma_positions(codes, code, codes.len());
    }
    let mut j: usize = 0;
    while j < candidates.len()
        invariant
            j <= candidates@.len(),
            texts == key_texts(keys@),
            codes == key_codes(texts),
            code == key_code(key.text()),
            texts.len() <= usize::MAX,
            candidates@ == positions_of(codes, code, codes.len()),
            forall|k: int| 0 <= k < candidates@.len() ==> (#[trigger] candidates@[k]) < texts.len(),
            forall|k: int| 0 <= k < j ==> texts[(#[trigger] candidates@[k]) as int] != key.text(),
        decreases candidates.len() - j,
    {
        let i = candidates[j];
        if keys[i].same(key) {
            assert(texts[i as int] == key.text());
            return true;
        }
        j += 1;
    }
    proof {
        lemma_no_candidate(texts, codes, key.text(), code);
    }
    false
}

/// The keys that name a group of some sample, in the order in which they
/// are first seen.
pub fn union_of_keys(groups: &Vec<SampleGroups>) -> (out: Vec<GroupKey>)
    ensures
        key_texts(out@) == row_keys(texts_of(groups@)),
{
    let mut keys: Vec<GroupKey> = Vec::new();
    let mut places = Places::new();
    let mut s: usize = 0;
    assert(key_texts(keys@) =~= Seq::<KeyText>::empty());
    assert(key_codes(key_texts(keys@)) =~= Seq::<u64>::empty());
    while s < groups.len()
        invariant
            s <= groups.len(),
            key_texts(keys@) == first_seen(all_keys(texts_of(groups@), s as nat)),
            places.wf(),
            places.codes() == key_codes(key_texts(keys@)),
        decreases groups.len() - s,
    {
        let list = &groups[s].groups;
        let ghost done = all_keys(texts_of(groups@), s as nat);
        let ghost here = keys_of_groups(group_texts(list@));
        let mut g: usize = 0;
        assert(done + here.take(0) =~= done);
        assert(texts_of(groups@)[s as int] == group_texts(list@));
        while g < list.len()
            invariant
                g <= list.len(),
                here == keys_of_groups(group_texts(list@)),
                key_texts(keys@) == first_seen(done + here.take(g as int)),
                places.wf(),
                places.codes() == key_codes(key_texts(keys@)),
            decreases list.len() - g,
        {
            let key = list[g].group_key();
            proof {
                let grown = done + here.take(g + 1);
                assert(grown.drop_last() =~= done + here.take(g as int));
                assert(grown.last() == key.text());
            }
            if !has_key(&keys, &places, &key) {
                let ghost before = key_texts(keys@);
                let code = code_of_key(&key.gene_id, key.taxon_id, &key.lineage);
                keys.push(key);
                proof {
                    assert(keys.len() == keys@.len());
                }
                places.push(code);
                assert(key_texts(keys@) =~= before.push(key.text()));
                assert(key_codes(key_texts(keys@)) =~= key_codes(before).push(code));
            }
            g += 1;
        }
        assert(here.take(list@.len() as int) =~= here);
        s += 1;
    }
    keys
}

/// `places` files, sample by sample, the keys of the sample's groups.
pub open spec fn group_places_fit(groups: Seq<SampleGroups>, places: Seq<Places>) -> bool {
    &&& places.len() == groups.len()
    &&& forall|s: int|
        0 <= s < places.len() ==> (#[trigger] places[s]).wf() && places[s].codes() == key_codes(
            keys_of_groups(group_texts(groups[s].groups@)),
        )
}

/// Files the keys of every sample's groups by code.
fn index_all_groups(groups: &Vec<SampleGroups>) -> (out: Vec<Places>)
    ensures
        group_places_fit(groups@, out@),
{
    let mut out: Vec<Places> = Vec::new();
    let mut s: usize = 0;
    while s < groups.len()
        invariant
            s <= groups.len(),
            out@.len() == s,
            forall|t: int|
                0 <= t < s ==> (#[trigger] out@[t]).wf() && out@[t].codes() == key_codes(
                    keys_of_groups(group_texts(groups@[t].groups@)),
                ),
        decreases groups.len() - s,
    {
        out.push(index_groups(&groups[s].groups));
        s += 1;
    }
    out
}

/// The cells of the row of `key`, found through `places`.
fn cells_of_key(
    table: &SamplePnPs,
    groups: &Vec<SampleGroups>,
    places: &Vec<Places>,
    key: &GroupKey,
    kind: ResultType,
) -> (out: Vec<Cell>)
    requires
        groups_fit(table.samples@, groups@),
        group_places_fit(groups@, places@),
    ensures
        out@ == group_row_cells(table.samples@, texts_of(groups@), key.text(), kind),
{
    let mut cells: Vec<Cell> = Vec::new();
    let mut s: usize = 0;
    while s < groups.len()
        invariant
            s <= groups.len(),
            groups_fit(table.samples@, groups@),
            group_places_fit(groups@, places@),
            cells@.len() == s,
            forall|t: int|
                0 <= t < s ==> cells@[t] == group_cell(
                    table.samples@[t].records@,
                    texts_of(groups@)[t],
                    key.text(),
                    kind,
                ),
        decreases groups.len() - s,
    {
        let list = &groups[s].groups;
        assert(members_below(groups@[s as int].groups@, table.samples@[s as int].records@.len() as int));
        assert(places@[s as int].wf());
        let cell = match find_group(list, &places[s], key) {
            Some(g) => {
                assert(forall|m: int|
                    0 <= m < list@[g as int].pnps@.len() ==> (#[trigger] list@[g as int].pnps@[m])
                        < table.samples@[s as int].records@.len());
                totals_of_group(&table.samples[s].records, &list[g].pnps).cell(kind)
            },
            None => Cell::Missing,
        };
        cells.push(cell);
        s += 1;
    }
    assert(cells@ =~= group_row_cells(table.samples@, texts_of(groups@), key.text(), kind));
    cells
}

/// `matrix` is the grouped matrix of `groups` over `table`: a column per
/// sample; a row for every key that names a group of some sample, in the
/// order in which the keys are first seen, unless none of its cells is
/// usable; in each row the chosen ratio of the group's summed counters, or
/// `Missing` where the sample has no such group.
pub open spec fn is_grouped_report(
    table: Seq<SampleTable>,
    groups: Seq<Seq<GroupText>>,
    ids: Seq<Seq<char>>,
    kind: ResultType,
    matrix: GroupMatrix,
) -> bool {
    &&& names_of(matrix.samples@) == ids
    &&& keys_of_rows(matrix.rows@) == kept_keys(
        table,
        groups,
        row_keys(groups),
        kind,
        row_keys(groups).len(),
    )
    &&& forall|i: int|
        0 <= i < matrix.rows@.len() ==> (#[trigger] matrix.rows@[i]).cells@ == group_row_cells(
            table,
            groups,
            matrix.rows@[i].key.text(),
            kind,
        )
    &&& forall|i: int|
        0 <= i < matrix.rows@.len() ==> (#[trigger] matrix.rows@[i]).lineage.text()
            == lineage_source(matrix.rows@[i].key.text())
    &&& forall|i: int| 0 <= i < matrix.rows@.len() ==> usable((#[trigger] matrix.rows@[i]).cells@)
}

/// Lays out the grouped matrix.
pub fn write_grouped_output(
    table: &SamplePnPs,
    pnps_map: &Vec<SampleGroups>,
    result_type: ResultType,
) -> (out: GroupMatrix)
    requires
        groups_fit(table.samples@, pnps_map@),
    ensures
        is_grouped_report(
            table.samples@,
            texts_of(pnps_map@),
            group_sample_ids(pnps_map@),
            result_type,
            out,
        ),
{
    let ghost texts = texts_of(pnps_map@);
    let keys = union_of_keys(pnps_map);
    let places = index_all_groups(pnps_map);
    let mut rows: Vec<GroupRow> = Vec::new();
    let mut i: usize = 0;
    assert(keys_of_rows(rows@) =~= Seq::<KeyText>::empty());
    assert(key_texts(keys@).len() == keys@.len());
    while i < keys.len()
        invariant
            i <= keys.len(),
            groups_fit(table.samples@, pnps_map@),
            group_places_fit(pnps_map@, places@),
            texts == texts_of(pnps_map@),
            keys_of_rows(rows@) == kept_keys(
                table.samples@,
                texts,
                key_texts(keys@),
                result_type,
                i as nat,
            ),
            forall|j: int|
                0 <= j < rows@.len() ==> (#[trigger] rows@[j]).cells@ == group_row_cells(
                    table.samples@,
                    texts,
                    rows@[j].key.text(),
                    result_type,
                ),
            forall|j: int|
                0 <= j < rows@.len() ==> (#[trigger] rows@[j]).lineage.text() == lineage_source(
                    rows@[j].key.text(),
                ),
            forall|j: int| 0 <= j < rows@.len() ==> usable((#[trigger] rows@[j]).cells@),
        decreases keys.len() - i,
    {
        let cells = cells_of_key(table, pnps_map, &places, &keys[i], result_type);
        assert(key_texts(keys@)[i as int] == keys@[i as int].text());
        if is_usable(&cells) {
            let ghost before = rows@;
            let key = keys[i].duplicate();
            let lineage = key.lineage_of_row();
            rows.push(GroupRow { key, lineage, cells });
            assert(keys_of_rows(rows@) =~= keys_of_rows(before).push(keys@[i as int].text()));
        }
        i += 1;
    }
    let mut samples: Vec<String> = Vec::new();
    let mut s: usize = 0;
    while s < pnps_map.len()
        invariant
            s <= pnps_map.len(),
            samples@.len() == s,
            forall|t: int| 0 <= t < s ==> (#[trigger] samples@[t])@ == pnps_map@[t].sample_id@,
        decreases pnps_map.len() - s,
    {
        samples.push(pnps_map[s].sample_id.clone());
        s += 1;
    }
    assert(names_of(samples@) =~= group_sample_ids(pnps_map@));
    GroupMatrix { samples, rows }
}

/// The groups that the mappings make of each sample's records.
pub open spec fn regrouped(table: Seq<SampleTable>, maps: Mappings) -> Seq<Seq<GroupText>> {
    Seq::new(
        table.len(),
        |s: int| grouped(maps.entries(table[s].records@, table[s].records@.len())),
    )
}

/// The samples of `table` have record lists that fit the machine and
/// hold no UID twice.
pub open spec fn plain_table(table: Seq<SampleTable>) -> bool {
    forall|s: int|
        0 <= s < table.len() ==> distinct_uids((#[trigger] table[s]).records@)
            && table[s].records@.len() <= usize::MAX
}

/// With empty mappings the keys of all groups are the default keys of all
/// UIDs, in the same order.
pub proof fn lemma_degenerate_keys(table: Seq<SampleTable>, maps: Mappings, n: nat)
    requires
        maps.is_empty(),
        plain_table(table),
        n <= table.len(),
    ensures
        all_keys(regrouped(table, maps), n) == all_uids(table, n).map_values(
            |uid: u128| default_key(uid),
        ),
    decreases n,
{
    let f = |uid: u128| default_key(uid);
    if n == 0 {
        assert(all_keys(regrouped(table, maps), n) =~= all_uids(table, n).map_values(f));
    } else {
        lemma_degenerate_keys(table, maps, (n - 1) as nat);
        let records = table[n - 1].records@;
        lemma_degenerate_groups(maps, records, records.len());
        assert(keys_of_groups(degenerate(records, records.len())) =~= uids_of(records).map_values(f));
        assert(all_keys(regrouped(table, maps), n) =~= all_uids(table, n).map_values(f));
    }
}

/// With empty mappings the cell of a sample in the row of a UID's default
/// key is the cell of the sample in the row of the UID.
pub proof fn lemma_degenerate_cell(
    records: Seq<PnPsRecord>,
    maps: Mappings,
    uid: u128,
    kind: ResultType,
)
    requires
        maps.is_empty(),
        distinct_uids(records),
        records.len() <= usize::MAX,
    ensures
        group_cell(
            records,
            grouped(maps.entries(records, records.len())),
            default_key(uid),
            kind,
        ) == match slot_of(records, uid) {
            Some(r) => totals_of_record(records[r]).spec_cell(kind),
            None => Cell::Missing,
        },
{
    let groups = degenerate(records, records.len());
    lemma_degenerate_groups(maps, records, records.len());
    let keys = keys_of_groups(groups);
    lemma_index_meaning(keys, default_key(uid));
    lemma_index_meaning(uids_of(records), uid);
    match uids_of(records).index_of_first(uid) {
        Some(r) => {
            assert(keys[r] == default_key(uid));
            assert forall|j: int| 0 <= j < r implies keys[j] != default_key(uid) by {
                if keys[j] == default_key(uid) {
                    lemma_default_key_injective(records[j].uid, uid);
                    assert(uids_of(records)[j] == uid);
                }
            }
            lemma_first_index(keys, default_key(uid), r);
            let members = groups[r].members;
            assert(members =~= seq![r as usize]);
            reveal_with_fuel(summed, 2);
            assert(totals_of(summed(records, members, 1)) == totals_of_record(records[r]));
        },
        None => {
            assert forall|j: int| 0 <= j < keys.len() implies keys[j] != default_key(uid) by {
                if keys[j] == default_key(uid) {
                    lemma_default_key_injective(records[j].uid, uid);
                    assert(uids_of(records)[j] == uid);
                }
            }
            lemma_no_index(keys, default_key(uid));
        },
    }
}

/// With empty mappings the row of a UID's default key has the cells of
/// the row of the UID.
pub proof fn lemma_degenerate_row(
    table: Seq<SampleTable>,
    maps: Mappings,
    uid: u128,
    kind: ResultType,
)
    requires
        maps.is_empty(),
        plain_table(table),
    ensures
        group_row_cells(table, regrouped(table, maps), default_key(uid), kind) == row_cells(
            table,
            uid,
            kind,
        ),
{
    let left = group_row_cells(table, regrouped(table, maps), default_key(uid), kind);
    let right = row_cells(table, uid, kind);
    assert forall|s: int| 0 <= s < table.len() implies left[s] == right[s] by {
        lemma_degenerate_cell(table[s].records@, maps, uid, kind);
    }
    assert(left =~= right);
}

/// With empty mappings the rows kept among default keys are the default
/// keys of the rows kept among the UIDs.
pub proof fn lemma_degenerate_kept(
    table: Seq<SampleTable>,
    maps: Mappings,
    uids: Seq<u128>,
    kind: ResultType,
    n: nat,
)
    requires
        maps.is_empty(),
        plain_table(table),
        n <= uids.len(),
    ensures
        kept_keys(
            table,
            regrouped(table, maps),
            uids.map_values(|uid: u128| default_key(uid)),
            kind,
            n,
        ) == kept_uids(table, uids, kind, n).map_values(|uid: u128| default_key(uid)),
    decreases n,
{
    let f = |uid: u128| default_key(uid);
    let groups = regrouped(table, maps);
    if n == 0 {
        assert(kept_keys(table, groups, uids.map_values(f), kind, n) =~= kept_uids(
            table,
            uids,
            kind,
            n,
        ).map_values(f));
    } else {
        lemma_degenerate_kept(table, maps, uids, kind, (n - 1) as nat);
        lemma_degenerate_row(table, maps, uids[n - 1], kind);
        assert(uids.map_values(f)[n - 1] == default_key(uids[n - 1]));
        assert(kept_keys(table, groups, uids.map_values(f), kind, n) =~= kept_uids(
            table,
            uids,
            kind,
            n,
        ).map_values(f));
    }
}

/// Grouping with empty mappings degenerates to the ungrouped matrix: the
/// rows written are, in the same order, those of the ungrouped matrix,
/// each under the default key of its UID (taxon 0, no lineage), and each
/// with the same cells.
pub proof fn lemma_degenerate_matrix(table: Seq<SampleTable>, maps: Mappings, kind: ResultType)
    requires
        maps.is_empty(),
        plain_table(table),
    ensures
        kept_keys(
            table,
            regrouped(table, maps),
            row_keys(regrouped(table, maps)),
            kind,
            row_keys(regrouped(table, maps)).len(),
        ) == kept_uids(table, row_uids(table), kind, row_uids(table).len()).map_values(
            |uid: u128| default_key(uid),
        ),
        forall|uid: u128| #[trigger]
            group_row_cells(table, regrouped(table, maps), default_key(uid), kind) == row_cells(
                table,
                uid,
                kind,
            ),
{
    let f = |uid: u128| default_key(uid);
    let uids = all_uids(table, table.len());
    lemma_degenerate_keys(table, maps, table.len());
    assert forall|x: u128, y: u128| #[trigger] f(x) == #[trigger] f(y) implies x == y by {
        lemma_default_key_injective(x, y);
    }
    lemma_first_seen_mapped(uids, f);
    assert(row_keys(regrouped(table, maps)) == row_uids(table).map_values(f));
    lemma_degenerate_kept(table, maps, row_uids(table), kind, row_uids(table).len());
    assert forall|uid: u128| #[trigger]
        group_row_cells(table, regrouped(table, maps), default_key(uid), kind) == row_cells(
            table,
            uid,
            kind,
        ) by {
        lemma_degenerate_row(table, maps, uid, kind);
    }
}

/// Two groups with the same members have the same counters, and so the
/// same cell whatever ratio is chosen.
pub proof fn lemma_same_members_same_cell(
    records: Seq<PnPsRecord>,
    groups: Seq<GroupText>,
    first: KeyText,
    second: KeyText,
    g: int,
    h: int,
    kind: ResultType,
)
    requires
        keys_of_groups(groups).no_duplicates(),
        0 <= g < groups.len(),
        0 <= h < groups.len(),
        groups[g].key == first,
        groups[h].key == second,
        groups[g].members == groups[h].members,
    ensures
        group_cell(records, groups, first, kind) == group_cell(records, groups, second, kind),
{
    assert forall|j: int| 0 <= j < g implies keys_of_groups(groups)[j] != first by {
        assert(keys_of_groups(groups)[j] != keys_of_groups(groups)[g]);
    }
    lemma_first_index(keys_of_groups(groups), first, g);
    assert forall|j: int| 0 <= j < h implies keys_of_groups(groups)[j] != second by {
        assert(keys_of_groups(groups)[j] != keys_of_groups(groups)[h]);
    }
    lemma_first_index(keys_of_groups(groups), second, h);
}

/// Fan-out in the matrix: where a record's UID is mapped to two different
/// gene ids and no other record shares either key, the two keys name two
/// groups, and the sample has the same cell in the rows of both.
pub proof fn lemma_fan_out_cells(
    maps: Mappings,
    records: Seq<PnPsRecord>,
    p: int,
    a: int,
    b: int,
    kind: ResultType,
)
    requires
        records.len() <= usize::MAX,
        0 <= p < records.len(),
        0 <= a < maps.keys(records[p].uid).len(),
        0 <= b < maps.keys(records[p].uid).len(),
        maps.keys(records[p].uid)[a] != maps.keys(records[p].uid)[b],
        forall|i: int|
            0 <= i < maps.keys(records[p].uid).len() && i != a ==> maps.keys(records[p].uid)[i]
                != maps.keys(records[p].uid)[a],
        forall|i: int|
            0 <= i < maps.keys(records[p].uid).len() && i != b ==> maps.keys(records[p].uid)[i]
                != maps.keys(records[p].uid)[b],
        forall|q: int|
            0 <= q < records.len() && q != p ==> {
                &&& !maps.keys((#[trigger] records[q]).uid).contains(maps.keys(records[p].uid)[a])
                &&& !maps.keys(records[q].uid).contains(maps.keys(records[p].uid)[b])
            },
    ensures
        keys_of_groups(grouped(maps.entries(records, records.len()))).contains(
            maps.keys(records[p].uid)[a],
        ),
        keys_of_groups(grouped(maps.entries(records, records.len()))).contains(
            maps.keys(records[p].uid)[b],
        ),
        group_cell(
            records,
            grouped(maps.entries(records, records.len())),
            maps.keys(records[p].uid)[a],
            kind,
        ) == group_cell(
            records,
            grouped(maps.entries(records, records.len())),
            maps.keys(records[p].uid)[b],
            kind,
        ),
        group_cell(
            records,
            grouped(maps.entries(records, records.len())),
            maps.keys(records[p].uid)[a],
            kind,
        ) == totals_of_record(records[p]).spec_cell(kind),
{
    let groups = grouped(maps.entries(records, records.len()));
    let ka = maps.keys(records[p].uid)[a];
    let kb = maps.keys(records[p].uid)[b];
    lemma_fan_out(maps, records, p, a, b);
    lemma_grouped(maps.entries(records, records.len()));
    let (g, h) = choose|g: int, h: int| #[trigger] fans_out(groups, g, h, ka, kb, p as usize);
    assert(keys_of_groups(groups)[g] == ka);
    assert(keys_of_groups(groups)[h] == kb);
    lemma_same_members_same_cell(records, groups, ka, kb, g, h, kind);
    assert forall|j: int| 0 <= j < g implies keys_of_groups(groups)[j] != ka by {
        assert(keys_of_groups(groups)[j] != keys_of_groups(groups)[g]);
    }
    lemma_first_index(keys_of_groups(groups), ka, g);
    reveal_with_fuel(summed, 2);
    assert(totals_of(summed(records, groups[g].members, 1)) == totals_of_record(records[p]));
}

/// A row is written for a key exactly if the key is among those offered
/// and its row has a usable cell.
pub proof fn lemma_kept_keys(
    table: Seq<SampleTable>,
    groups: Seq<Seq<GroupText>>,
    keys: Seq<KeyText>,
    kind: ResultType,
    n: nat,
    key: KeyText,
)
    requires
        n <= keys.len(),
    ensures
        kept_keys(table, groups, keys, kind, n).contains(key) <==> (exists|i: int|
            0 <= i < n && keys[i] == key) && usable(group_row_cells(table, groups, key, kind)),
    decreases n,
{
    if n > 0 {
        lemma_kept_keys(table, groups, keys, kind, (n - 1) as nat, key);
        let before = kept_keys(table, groups, keys, kind, (n - 1) as nat);
        let now = kept_keys(table, groups, keys, kind, n);
        if now.contains(key) {
            let k = choose|k: int| 0 <= k < now.len() && now[k] == key;
            if k < before.len() {
                assert(before[k] == key);
                assert(before.contains(key));
                let i = choose|i: int| 0 <= i < n - 1 && keys[i] == key;
                assert(0 <= i < n && keys[i] == key);
            } else {
                assert(keys[n - 1] == key);
            }
        }
        if (exists|i: int| 0 <= i < n && keys[i] == key) && usable(
            group_row_cells(table, groups, key, kind),
        ) {
            let i = choose|i: int| 0 <= i < n && keys[i] == key;
            if i < n - 1 {
                assert(before.contains(key));
                let k = choose|k: int| 0 <= k < before.len() && before[k] == key;
                assert(now[k] == key);
            } else {
                assert(now[now.len() - 1] == key);
            }
        }
    }
}

/// Every key that names a group of a sample is among the keys of all
/// groups, and no other is.
pub proof fn lemma_all_keys(groups: Seq<Seq<GroupText>>, n: nat, key: KeyText)
    requires
        n <= groups.len(),
    ensures
        all_keys(groups, n).contains(key) <==> exists|s: int|
            0 <= s < n && keys_of_groups(#[trigger] groups[s]).contains(key),
    decreases n,
{
    if n > 0 {
        lemma_all_keys(groups, (n - 1) as nat, key);
        let before = all_keys(groups, (n - 1) as nat);
        let here = keys_of_groups(groups[n - 1]);
        let now = all_keys(groups, n);
        if now.contains(key) {
            let k = choose|k: int| 0 <= k < now.len() && now[k] == key;
            if k < before.len() {
                assert(before[k] == key);
                assert(before.contains(key));
                let s = choose|s: int|
                    0 <= s < n - 1 && keys_of_groups(#[trigger] groups[s]).contains(key);
                assert(0 <= s < n && keys_of_groups(groups[s]).contains(key));
            } else {
                assert(here[k - before.len()] == key);
                assert(keys_of_groups(groups[n - 1]).contains(key));
            }
        }
        if exists|s: int| 0 <= s < n && keys_of_groups(#[trigger] groups[s]).contains(key) {
            let s = choose|s: int|
                0 <= s < n && keys_of_groups(#[trigger] groups[s]).contains(key);
            if s < n - 1 {
                assert(before.contains(key));
                let k = choose|k: int| 0 <= k < before.len() && before[k] == key;
                assert(now[k] == key);
            } else {
                let k = choose|k: int| 0 <= k < here.len() && here[k] == key;
                assert(now[before.len() + k] == key);
            }
        }
    }
}

/// The row-drop rule for groups: a row is written for a key exactly if
/// the key names a group of some sample and at least one cell of its row
/// is usable.
pub proof fn lemma_group_row_written(
    table: Seq<SampleTable>,
    groups: Seq<Seq<GroupText>>,
    kind: ResultType,
    key: KeyText,
)
    ensures
        kept_keys(table, groups, row_keys(groups), kind, row_keys(groups).len()).contains(key) <==> (
        exists|s: int| 0 <= s < groups.len() && keys_of_groups(#[trigger] groups[s]).contains(key))
            && usable(group_row_cells(table, groups, key, kind)),
{
    let rows = row_keys(groups);
    lemma_kept_keys(table, groups, rows, kind, rows.len(), key);
    lemma_first_seen(all_keys(groups, groups.len()));
    lemma_all_keys(groups, groups.len(), key);
    if rows.contains(key) {
        let i = choose|i: int| 0 <= i < rows.len() && rows[i] == key;
        assert(0 <= i < rows.len() && rows[i] == key);
    }
    if exists|i: int| 0 <= i < rows.len() && rows[i] == key {
        let i = choose|i: int| 0 <= i < rows.len() && rows[i] == key;
        assert(rows.contains(key));
    }
}

} // verus!

//! The aggregator: the records of each sample, regrouped by gene, taxon
//! and lineage.
//!
//! A group does not copy records: it lists the places that its members
//! have in the sample's record list. A UID that is mapped to several gene
//! ids is a member of one group for each of them.

use vstd::prelude::*;
use crate::lookup::{lemma_index_meaning, lemma_no_index, same_slot};
use crate::places::{
    code_of_text, lemma_candidate_is_first, lemma_no_candidate, lemma_positions, positions_of,
    text_code, Places, CODE_RANGE,
};
use crate::maps::{gene_texts, lineage_texts, GeneMap, LineageMap, TaxonMap};
use crate::record::{distinct_uids, uids_of, PnPsRecord, SamplePnPs, SampleTable};
use crate::text::names_of;
use crate::uid::{lemma_uid_text_injective, uid_string, uid_text};

verus! {

/// What names a group: gene id, taxon id and lineage, as plain text.
pub struct KeyText {
    pub gene_id: Seq<char>,
    pub taxon_id: u32,
    pub lineage: Seq<char>,
}

/// A group as plain values: its key and the places of its members.
pub struct GroupText {
    pub key: KeyText,
    pub members: Seq<usize>,
}

/// The key of a group.
#[derive(Clone, Debug, PartialEq, Eq)]
pub struct GroupKey {
    pub gene_id: String,
    pub taxon_id: u32,
    pub lineage: String,
}

/// The records of one sample that share a key, by place in the sample's
/// record list.
#[derive(Clone, Debug, PartialEq, Eq)]
pub struct GroupPnPs {
    pub gene_id: String,
    pub taxon_id: u32,
    pub taxon_lineage: String,
    pub pnps: Vec<usize>,
}

/// The groups of one sample.
#[derive(Clone, Debug, PartialEq, Eq)]
pub struct SampleGroups {
    pub sample_id: String,
    pub groups: Vec<GroupPnPs>,
}

impl GroupKey {
    /// The key as plain text.
    pub open spec fn text(self) -> KeyText {
        KeyText { gene_id: self.gene_id@, taxon_id: self.taxon_id, lineage: self.lineage@ }
    }
}

impl GroupPnPs {
    /// The key of the group, as plain text.
    pub open spec fn key(self) -> KeyText {
        KeyText { gene_id: self.gene_id@, taxon_id: self.taxon_id, lineage: self.taxon_lineage@ }
    }

    /// The group as plain values.
    pub open spec fn text(self) -> GroupText {
        GroupText { key: self.key(), members: self.pnps@ }
    }
}

/// The keys in `keys`, as plain text.
pub open spec fn key_texts(keys: Seq<GroupKey>) -> Seq<KeyText> {
    keys.map_values(|k: GroupKey| k.text())
}

/// The groups in `groups`, as plain values.
pub open spec fn group_texts(groups: Seq<GroupPnPs>) -> Seq<GroupText> {
    groups.map_values(|g: GroupPnPs| g.text())
}

/// The keys of `groups`, position by position.
pub open spec fn keys_of_groups(groups: Seq<GroupText>) -> Seq<KeyText> {
    groups.map_values(|g: GroupText| g.key)
}

/// The three mappings that name the groups, as plain values.
pub struct Mappings {
    pub genes: Map<u128, Seq<Seq<char>>>,
    pub taxa: Map<u128, u32>,
    pub lineages: Map<u128, Seq<char>>,
}

impl Mappings {
    /// The gene ids of a UID: those that the gene map gives, or the
    /// textual form of the UID where the map has none.
    pub open spec fn gene_ids(self, uid: u128) -> Seq<Seq<char>> {
        if self.genes.contains_key(uid) {
            self.genes[uid]
        } else {
            seq![uid_text(uid)]
        }
    }

    /// The taxon id of a UID: 0 where the taxon map has none.
    pub open spec fn taxon(self, uid: u128) -> u32 {
        if self.taxa.contains_key(uid) {
            self.taxa[uid]
        } else {
            0
        }
    }

    /// The lineage of a UID: empty where the lineage map has none.
    pub open spec fn lineage(self, uid: u128) -> Seq<char> {
        if self.lineages.contains_key(uid) {
            self.lineages[uid]
        } else {
            Seq::empty()
        }
    }

    /// The keys of the groups that a record with this UID belongs to: one
    /// for each of its gene ids, in their order.
    pub open spec fn keys(self, uid: u128) -> Seq<KeyText> {
        Seq::new(
            self.gene_ids(uid).len(),
            |i: int|
                KeyText {
                    gene_id: self.gene_ids(uid)[i],
                    taxon_id: self.taxon(uid),
                    lineage: self.lineage(uid),
                },
        )
    }

    /// The memberships of the first `n` records: for each record in turn,
    /// each of its keys with the record's place.
    pub open spec fn entries(self, records: Seq<PnPsRecord>, n: nat) -> Seq<(KeyText, usize)>
        decreases n,
    {
        if n == 0 {
            Seq::empty()
        } else {
            self.entries(records, (n - 1) as nat) + assigned(
                self.keys(records[n - 1].uid),
                (n - 1) as usize,
            )
        }
    }

    /// None of the three mappings says anything.
    pub open spec fn is_empty(self) -> bool {
        &&& self.genes == Map::<u128, Seq<Seq<char>>>::empty()
        &&& self.taxa == Map::<u128, u32>::empty()
        &&& self.lineages == Map::<u128, Seq<char>>::empty()
    }
}

/// The three mappings as plain values.
pub open spec fn mappings_of(
    gene_map: Map<u128, Vec<String>>,
    taxon_map: Map<u128, u32>,
    lineage_map: Map<u128, String>,
) -> Mappings {
    Mappings {
        genes: gene_texts(gene_map),
        taxa: taxon_map,
        lineages: lineage_texts(lineage_map),
    }
}

/// Each of `keys` with the place `place`.
pub open spec fn assigned(keys: Seq<KeyText>, place: usize) -> Seq<(KeyText, usize)> {
    Seq::new(keys.len(), |i: int| (keys[i], place))
}

/// `groups` after the record at `place` joined the group named `key`: the
/// first group with that key gets the place at the end of its members; a
/// new group goes to the end where there is none.
pub open spec fn with_member(groups: Seq<GroupText>, key: KeyText, place: usize) -> Seq<GroupText> {
    match keys_of_groups(groups).index_of_first(key) {
        Some(i) => groups.update(i, GroupText { key, members: groups[i].members.push(place) }),
        None => groups.push(GroupText { key, members: seq![place] }),
    }
}

/// The groups that the memberships `entries` make, taken one after the
/// other.
pub open spec fn grouped(entries: Seq<(KeyText, usize)>) -> Seq<GroupText>
    decreases entries.len(),
{
    if entries.len() == 0 {
        Seq::empty()
    } else {
        with_member(grouped(entries.drop_last()), entries.last().0, entries.last().1)
    }
}

/// The places that `entries` give to the key `key`, in order.
pub open spec fn members_of(entries: Seq<(KeyText, usize)>, key: KeyText) -> Seq<usize>
    decreases entries.len(),
{
    if entries.len() == 0 {
        Seq::empty()
    } else {
        let before = members_of(entries.drop_last(), key);
        if entries.last().0 == key {
            before.push(entries.last().1)
        } else {
            before
        }
    }
}

/// The groups made of memberships have distinct keys; a key has a group
/// exactly if some membership names it; and the members of a group are the
/// places that the memberships give to its key, in their order.
pub proof fn lemma_grouped(entries: Seq<(KeyText, usize)>)
    ensures
        keys_of_groups(grouped(entries)).no_duplicates(),
        forall|key: KeyText|
            keys_of_groups(grouped(entries)).contains(key) <==> members_of(entries, key).len() > 0,
        forall|g: int|
            0 <= g < grouped(entries).len() ==> (#[trigger] grouped(entries)[g]).members
                == members_of(entries, grouped(entries)[g].key),
    decreases entries.len(),
{
    if entries.len() > 0 {
        let front = entries.drop_last();
        let before = grouped(front);
        let now = grouped(entries);
        let key = entries.last().0;
        let place = entries.last().1;
        lemma_grouped(front);
        lemma_index_meaning(keys_of_groups(before), key);
        match keys_of_groups(before).index_of_first(key) {
            Some(i) => {
                assert(keys_of_groups(now) =~= keys_of_groups(before));
                assert forall|k: KeyText| keys_of_groups(now).contains(k) <==> members_of(
                    entries,
                    k,
                ).len() > 0 by {
                    if k == key {
                        assert(keys_of_groups(before)[i] == key);
                    }
                }
                assert forall|g: int| 0 <= g < now.len() implies (#[trigger] now[g]).members
                    == members_of(entries, now[g].key) by {
                    if g != i {
                        assert(now[g] == before[g]);
                        assert(keys_of_groups(before)[g] != keys_of_groups(before)[i]);
                    }
                }
            },
            None => {
                assert(keys_of_groups(now) =~= keys_of_groups(before).push(key));
                assert(!keys_of_groups(before).contains(key));
                assert(members_of(front, key).len() == 0);
                assert forall|k: KeyText| keys_of_groups(now).contains(k) <==> members_of(
                    entries,
                    k,
                ).len() > 0 by {
                    if keys_of_groups(now).contains(k) {
                        let j = choose|j: int|
                            0 <= j < keys_of_groups(now).len() && keys_of_groups(now)[j] == k;
                        if j < before.len() {
                            assert(keys_of_groups(before)[j] == k);
                            assert(keys_of_groups(before).contains(k));
                        }
                    }
                    if members_of(entries, k).len() > 0 {
                        if k == key {
                            assert(keys_of_groups(now)[before.len() as int] == k);
                        } else {
                            assert(keys_of_groups(before).contains(k));
                            let j = choose|j: int|
                                0 <= j < keys_of_groups(before).len() && keys_of_groups(before)[j]
                                    == k;
                            assert(keys_of_groups(now)[j] == k);
                        }
                    }
                }
                assert forall|g: int| 0 <= g < now.len() implies (#[trigger] now[g]).members
                    == members_of(entries, now[g].key) by {
                    if g < before.len() {
                        assert(now[g] == before[g]);
                        assert(keys_of_groups(before)[g] != key);
                    } else {
                        assert(now[g].members =~= members_of(entries, key));
                    }
                }
            },
        }
    }
}

/// The places that two lists of memberships give to a key are those of the
/// first list, then those of the second.
pub proof fn lemma_members_concat(
    a: Seq<(KeyText, usize)>,
    b: Seq<(KeyText, usize)>,
    key: KeyText,
)
    ensures
        members_of(a + b, key) == members_of(a, key) + members_of(b, key),
    decreases b.len(),
{
    if b.len() == 0 {
        assert(a + b =~= a);
        assert(members_of(a, key) + members_of(b, key) =~= members_of(a, key));
    } else {
        lemma_members_concat(a, b.drop_last(), key);
        assert((a + b).drop_last() =~= a + b.drop_last());
        assert((a + b).last() == b.last());
        let front = members_of(a, key) + members_of(b.drop_last(), key);
        if b.last().0 == key {
            assert(front.push(b.last().1) =~= members_of(a, key) + members_of(b, key));
        }
    }
}

/// The places that the memberships of the first `n` records give to a key
/// are all below `n`.
pub proof fn lemma_members_in_range(
    maps: Mappings,
    records: Seq<PnPsRecord>,
    key: KeyText,
    n: nat,
)
    requires
        n <= records.len(),
        n <= usize::MAX,
    ensures
        forall|i: int|
            0 <= i < members_of(maps.entries(records, n), key).len() ==> (#[trigger] members_of(
                maps.entries(records, n),
                key,
            )[i]) < n,
    decreases n,
{
    if n > 0 {
        let front = maps.entries(records, (n - 1) as nat);
        let added = assigned(maps.keys(records[n - 1].uid), (n - 1) as usize);
        lemma_members_in_range(maps, records, key, (n - 1) as nat);
        lemma_members_concat(front, added, key);
        lemma_assigned_members(maps.keys(records[n - 1].uid), (n - 1) as usize, key);
    }
}

/// The memberships of one record give its own place to a key, once for
/// each time the key is among the record's keys.
pub proof fn lemma_assigned_members(keys: Seq<KeyText>, place: usize, key: KeyText)
    ensures
        forall|i: int|
            0 <= i < members_of(assigned(keys, place), key).len() ==> (#[trigger] members_of(
                assigned(keys, place),
                key,
            )[i]) == place,
        !keys.contains(key) ==> members_of(assigned(keys, place), key).len() == 0,
        keys.contains(key) ==> members_of(assigned(keys, place), key).len() > 0,
        keys.len() == 1 && keys[0] == key ==> members_of(assigned(keys, place), key) == seq![
            place,
        ],
    decreases keys.len(),
{
    let all = assigned(keys, place);
    if keys.len() > 0 {
        let front = keys.drop_last();
        lemma_assigned_members(front, place, key);
        assert(all.drop_last() =~= assigned(front, place));
        assert(all.last() == (keys.last(), place));
        if keys.contains(key) {
            let j = choose|j: int| 0 <= j < keys.len() && keys[j] == key;
            if j < front.len() {
                assert(front[j] == key);
            }
        }
        if front.contains(key) {
            let j = choose|j: int| 0 <= j < front.len() && front[j] == key;
            assert(keys[j] == key);
        }
        if keys.len() == 1 && keys[0] == key {
            assert(members_of(all, key) =~= seq![place]);
        }
    }
}

impl GroupKey {
    /// A copy of the key.
    pub fn duplicate(&self) -> (out: GroupKey)
        ensures
            out == *self,
    {
        GroupKey {
            gene_id: self.gene_id.clone(),
            taxon_id: self.taxon_id,
            lineage: self.lineage.clone(),
        }
    }

    /// Whether two keys name the same group.
    pub fn same(&self, other: &GroupKey) -> (out: bool)
        ensures
            out == (self.text() == other.text()),
    {
        self.taxon_id == other.taxon_id && self.gene_id.eq(&other.gene_id) && self.lineage.eq(
            &other.lineage,
        )
    }
}

impl GroupPnPs {
    /// Whether the group is the one that `key` names.
    pub fn has_key(&self, key: &GroupKey) -> (out: bool)
        ensures
            out == (self.key() == key.text()),
    {
        self.taxon_id == key.taxon_id && self.gene_id.eq(&key.gene_id) && self.taxon_lineage.eq(
            &key.lineage,
        )
    }

    /// The key of the group.
    pub fn group_key(&self) -> (out: GroupKey)
        ensures
            out.text() == self.key(),
    {
        GroupKey {
            gene_id: self.gene_id.clone(),
            taxon_id: self.taxon_id,
            lineage: self.taxon_lineage.clone(),
        }
    }
}

/// The keys of the groups that a record with UID `uid` belongs to.
pub fn keys_for(uid: u128, gene_map: &GeneMap, taxon_map: &TaxonMap, lineage_map: &LineageMap) -> (out:
    Vec<GroupKey>)
    ensures
        key_texts(out@) == mappings_of(gene_map@, taxon_map@, lineage_map@).keys(uid),
{
    let ghost maps = mappings_of(gene_map@, taxon_map@, lineage_map@);
    let taxon_id: u32 = match taxon_map.get(&uid) {
        Some(taxon) => *taxon,
        None => 0,
    };
    let lineage: String = match lineage_map.get(&uid) {
        Some(text) => text.clone(),
        None => String::new(),
    };
    assert(taxon_id == maps.taxon(uid));
    assert(lineage@ == maps.lineage(uid));
    let mut out: Vec<GroupKey> = Vec::new();
    match gene_map.get(&uid) {
        Some(values) => {
            assert(maps.gene_ids(uid) == names_of(values@));
            let mut i: usize = 0;
            while i < values.len()
                invariant
                    i <= values.len(),
                    out@.len() == i,
                    maps.gene_ids(uid) == names_of(values@),
                    taxon_id == maps.taxon(uid),
                    lineage@ == maps.lineage(uid),
                    forall|j: int| 0 <= j < i ==> (#[trigger] out@[j]).text() == maps.keys(uid)[j],
                decreases values.len() - i,
            {
                out.push(
                    GroupKey { gene_id: values[i].clone(), taxon_id, lineage: lineage.clone() },
                );
                i += 1;
            }
        },
        None => {
            out.push(GroupKey { gene_id: uid_string(uid), taxon_id, lineage });
        },
    }
    assert(key_texts(out@) =~= maps.keys(uid));
    out
}

/// The code of a group key.
pub open spec fn key_code(key: KeyText) -> u64 {
    ((((text_code(key.gene_id) as int * 1000003 + key.taxon_id as int) % (CODE_RANGE as int)) * 31
        + text_code(key.lineage) as int) % (CODE_RANGE as int)) as u64
}

/// The codes of `keys`, position by position.
pub open spec fn key_codes(keys: Seq<KeyText>) -> Seq<u64> {
    keys.map_values(|k: KeyText| key_code(k))
}

/// The code of the key made of `gene_id`, `taxon_id` and `lineage`.
pub fn code_of_key(gene_id: &String, taxon_id: u32, lineage: &String) -> (out: u64)
    ensures
        out == key_code(KeyText { gene_id: gene_id@, taxon_id, lineage: lineage@ }),
{
    let gene = code_of_text(gene_id.as_str());
    let line = code_of_text(lineage.as_str());
    let mixed: u128 = (gene as u128 * 1000003 + taxon_id as u128) % CODE_RANGE;
    ((mixed * 31 + line as u128) % CODE_RANGE) as u64
}

/// Files the keys of `groups` by code.
pub fn index_groups(groups: &Vec<GroupPnPs>) -> (out: Places)
    ensures
        out.wf(),
        out.codes() == key_codes(keys_of_groups(group_texts(groups@))),
{
    let mut places = Places::new();
    let ghost codes = key_codes(keys_of_groups(group_texts(groups@)));
    let mut i: usize = 0;
    assert(codes.take(0) =~= Seq::<u64>::empty());
    while i < groups.len()
        invariant
            i <= groups.len(),
            codes == key_codes(keys_of_groups(group_texts(groups@))),
            places.wf(),
            places.codes() == codes.take(i as int),
        decreases groups.len() - i,
    {
        let code = code_of_key(&groups[i].gene_id, groups[i].taxon_id, &groups[i].taxon_lineage);
        places.push(code);
        assert(codes.take(i + 1) =~= codes.take(i as int).push(code));
        i += 1;
    }
    assert(codes.take(groups@.len() as int) =~= codes);
    places
}

/// Finds the first group that `key` names, looking only at the groups that
/// `places` files under the key's code.
pub fn find_group(groups: &Vec<GroupPnPs>, places: &Places, key: &GroupKey) -> (found: Option<usize>)
    requires
        places.wf(),
        places.codes() == key_codes(keys_of_groups(group_texts(groups@))),
    ensures
        same_slot(found, keys_of_groups(group_texts(groups@)).index_of_first(key.text())),
        found matches Some(i) ==> i < groups@.len() && groups@[i as int].key() == key.text(),
{
    let code = code_of_key(&key.gene_id, key.taxon_id, &key.lineage);
    let candidates = places.candidates(code);
    let ghost keys = keys_of_groups(group_texts(groups@));
    let ghost codes = places.codes();
    proof {
        assert(groups.len() == groups@.len());
        lemma_positions(codes, code, codes.len());
    }
    let mut j: usize = 0;
    while j < candidates.len()
        invariant
            j <= candidates@.len(),
            keys == keys_of_groups(group_texts(groups@)),
            codes == key_codes(keys),
            code == key_code(key.text()),
            keys.len() <= usize::MAX,
            candidates@ == positions_of(codes, code, codes.len()),
            forall|k: int| 0 <= k < candidates@.len() ==> (#[trigger] candidates@[k]) < keys.len(),
            forall|k: int| 0 <= k < j ==> keys[(#[trigger] candidates@[k]) as int] != key.text(),
        decreases candidates.len() - j,
    {
        let i = candidates[j];
        if groups[i].has_key(key) {
            proof {
                assert(keys[i as int] == key.text());
                lemma_candidate_is_first(keys, codes, key.text(), code, j as int);
            }
            return Some(i);
        }
        j += 1;
    }
    proof {
        lemma_no_candidate(keys, codes, key.text(), code);
    }
    None
}

/// Makes the record at `place` a member of the group that `key` names.
fn add_member(groups: &mut Vec<GroupPnPs>, places: &mut Places, key: GroupKey, place: usize)
    requires
        old(places).wf(),
        old(places).codes() == key_codes(keys_of_groups(group_texts(old(groups)@))),
    ensures
        group_texts(final(groups)@) == with_member(group_texts(old(groups)@), key.text(), place),
        final(places).wf(),
        final(places).codes() == key_codes(keys_of_groups(group_texts(final(groups)@))),
{
    let ghost before = groups@;
    match find_group(groups, places, &key) {
        Some(i) => {
            groups[i].pnps.push(place);
            assert(group_texts(groups@) =~= group_texts(before).update(
                i as int,
                GroupText { key: key.text(), members: before[i as int].pnps@.push(place) },
            ));
            assert(keys_of_groups(group_texts(groups@)) =~= keys_of_groups(group_texts(before)));
        },
        None => {
            let mut pnps: Vec<usize> = Vec::new();
            pnps.push(place);
            let ghost text = GroupText { key: key.text(), members: pnps@ };
            assert(pnps@ =~= seq![place]);
            let code = code_of_key(&key.gene_id, key.taxon_id, &key.lineage);
            groups.push(
                GroupPnPs {
                    gene_id: key.gene_id,
                    taxon_id: key.taxon_id,
                    taxon_lineage: key.lineage,
                    pnps,
                },
            );
            proof {
                assert(groups.len() == groups@.len());
            }
            places.push(code);
            assert(group_texts(groups@) =~= group_texts(before).push(text));
            assert(key_codes(keys_of_groups(group_texts(groups@))) =~= key_codes(
                keys_of_groups(group_texts(before)),
            ).push(code));
        },
    }
}

/// Every member of every group is a place below `limit`.
pub open spec fn members_below(groups: Seq<GroupPnPs>, limit: int) -> bool {
    forall|g: int, m: int|
        0 <= g < groups.len() && 0 <= m < groups[g].pnps@.len() ==> (#[trigger] groups[g].pnps@[m])
            < limit
}

/// Groups the records of one sample: each record joins, for each of its
/// keys in turn, the group of that key.
pub fn group_records(
    records: &Vec<PnPsRecord>,
    gene_map: &GeneMap,
    taxon_map: &TaxonMap,
    lineage_map: &LineageMap,
) -> (out: Vec<GroupPnPs>)
    ensures
        group_texts(out@) == grouped(
            mappings_of(gene_map@, taxon_map@, lineage_map@).entries(records@, records@.len()),
        ),
        members_below(out@, records@.len() as int),
{
    let ghost maps = mappings_of(gene_map@, taxon_map@, lineage_map@);
    let mut groups: Vec<GroupPnPs> = Vec::new();
    let mut places = Places::new();
    let mut i: usize = 0;
    assert(group_texts(groups@) =~= Seq::<GroupText>::empty());
    assert(key_codes(keys_of_groups(group_texts(groups@))) =~= Seq::<u64>::empty());
    while i < records.len()
        invariant
            i <= records.len(),
            maps == mappings_of(gene_map@, taxon_map@, lineage_map@),
            group_texts(groups@) == grouped(maps.entries(records@, i as nat)),
            places.wf(),
            places.codes() == key_codes(keys_of_groups(group_texts(groups@))),
        decreases records.len() - i,
    {
        let keys = keys_for(records[i].uid, gene_map, taxon_map, lineage_map);
        let ghost done = maps.entries(records@, i as nat);
        let ghost fresh = assigned(maps.keys(records@[i as int].uid), i);
        let total = keys.len();
        let ghost all_keys = key_texts(keys@);
        let mut j: usize = 0;
        assert(done + fresh.take(0) =~= done);
        assert(fresh.len() == total);
        while j < total
            invariant
                j <= total,
                total == fresh.len(),
                keys@.len() == total,
                fresh == assigned(all_keys, i),
                all_keys == key_texts(keys@),
                group_texts(groups@) == grouped(done + fresh.take(j as int)),
                places.wf(),
                places.codes() == key_codes(keys_of_groups(group_texts(groups@))),
            decreases total - j,
        {
            let key = keys[j].duplicate();
            proof {
                let grown = done + fresh.take(j + 1);
                assert(grown.drop_last() =~= done + fresh.take(j as int));
                assert(grown.last() == fresh[j as int]);
            }
            add_member(&mut groups, &mut places, key, i);
            j += 1;
        }
        assert(fresh.take(total as int) =~= fresh);
        i += 1;
    }
    proof {
        let entries = maps.entries(records@, records@.len());
        lemma_grouped(entries);
        assert forall|g: int, m: int|
            0 <= g < groups@.len() && 0 <= m < groups@[g].pnps@.len() implies (
        #[trigger] groups@[g].pnps@[m]) < records@.len() by {
            let text = group_texts(groups@)[g];
            assert(text.members == members_of(entries, text.key));
            assert(records.len() == records@.len());
            lemma_members_in_range(maps, records@, text.key, records@.len());
        }
    }
    groups
}

/// `groups` has one entry per sample of `table`, and every member of
/// every group is a place of the sample's record list.
pub open spec fn groups_fit(table: Seq<SampleTable>, groups: Seq<SampleGroups>) -> bool {
    &&& groups.len() == table.len()
    &&& forall|s: int|
        0 <= s < groups.len() ==> members_below(
            (#[trigger] groups[s]).groups@,
            table[s].records@.len() as int,
        )
}

/// `groups` holds, sample by sample, the groups that the mappings make of
/// the sample's records.
pub open spec fn groups_of(table: Seq<SampleTable>, maps: Mappings, groups: Seq<SampleGroups>) -> bool {
    &&& groups.len() == table.len()
    &&& forall|s: int|
        0 <= s < groups.len() ==> {
            &&& (#[trigger] groups[s]).sample_id@ == table[s].sample_id@
            &&& group_texts(groups[s].groups@) == grouped(
                maps.entries(table[s].records@, table[s].records@.len()),
            )
        }
}

/// Regroups the records of every sample by gene, taxon and lineage.
pub fn group_pnps(
    pnps_map: &SamplePnPs,
    gene_map: &GeneMap,
    taxon_map: &TaxonMap,
    lineage_map: &LineageMap,
) -> (out: Vec<SampleGroups>)
    ensures
        groups_of(pnps_map.samples@, mappings_of(gene_map@, taxon_map@, lineage_map@), out@),
        groups_fit(pnps_map.samples@, out@),
{
    let ghost maps = mappings_of(gene_map@, taxon_map@, lineage_map@);
    let mut out: Vec<SampleGroups> = Vec::new();
    let mut s: usize = 0;
    while s < pnps_map.samples.len()
        invariant
            s <= pnps_map.samples.len(),
            out@.len() == s,
            maps == mappings_of(gene_map@, taxon_map@, lineage_map@),
            forall|t: int|
                0 <= t < s ==> {
                    &&& (#[trigger] out@[t]).sample_id@ == pnps_map.samples@[t].sample_id@
                    &&& group_texts(out@[t].groups@) == grouped(
                        maps.entries(
                            pnps_map.samples@[t].records@,
                            pnps_map.samples@[t].records@.len(),
                        ),
                    )
                    &&& members_below(out@[t].groups@, pnps_map.samples@[t].records@.len() as int)
                },
        decreases pnps_map.samples.len() - s,
    {
        let sample = &pnps_map.samples[s];
        let groups = group_records(&sample.records, gene_map, taxon_map, lineage_map);
        out.push(SampleGroups { sample_id: sample.sample_id.clone(), groups });
        s += 1;
    }
    out
}

/// The key that a UID gets where the mappings say nothing of it: its
/// textual form as gene id, taxon 0, and no lineage.
pub open spec fn default_key(uid: u128) -> KeyText {
    KeyText { gene_id: uid_text(uid), taxon_id: 0, lineage: Seq::empty() }
}

/// Different UIDs have different default keys.
pub proof fn lemma_default_key_injective(a: u128, b: u128)
    requires
        default_key(a) == default_key(b),
    ensures
        a == b,
{
    lemma_uid_text_injective(a, b);
}

/// The groups that empty mappings make of the first `n` records, which
/// have distinct UIDs.
pub open spec fn degenerate(records: Seq<PnPsRecord>, n: nat) -> Seq<GroupText> {
    Seq::new(
        n,
        |i: int| GroupText { key: default_key(records[i].uid), members: seq![i as usize] },
    )
}

/// With empty mappings grouping degenerates: there is one group per
/// record, in the order of the records, named by the record's UID with
/// taxon 0 and no lineage, and the record is its only member.
pub proof fn lemma_degenerate_groups(maps: Mappings, records: Seq<PnPsRecord>, n: nat)
    requires
        maps.is_empty(),
        distinct_uids(records),
        n <= records.len(),
        n <= usize::MAX,
    ensures
        grouped(maps.entries(records, n)) == degenerate(records, n),
    decreases n,
{
    if n == 0 {
        assert(grouped(maps.entries(records, n)) =~= degenerate(records, n));
    } else {
        lemma_degenerate_groups(maps, records, (n - 1) as nat);
        let front = maps.entries(records, (n - 1) as nat);
        let uid = records[n - 1].uid;
        let key = default_key(uid);
        let place = (n - 1) as usize;
        assert(maps.keys(uid) =~= seq![key]);
        let all = maps.entries(records, n);
        assert(all =~= front.push((key, place)));
        assert(all.drop_last() =~= front);
        let before = degenerate(records, (n - 1) as nat);
        assert forall|j: int| 0 <= j < before.len() implies keys_of_groups(before)[j] != key by {
            if keys_of_groups(before)[j] == key {
                lemma_default_key_injective(records[j].uid, uid);
                assert(uids_of(records)[j] == uids_of(records)[n - 1]);
            }
        }
        lemma_no_index(keys_of_groups(before), key);
        assert(with_member(before, key, place) =~= degenerate(records, n));
    }
}

/// What is given to a key that occurs once among the keys of a record is
/// the record's place, once.
pub proof fn lemma_assigned_once(keys: Seq<KeyText>, place: usize, key: KeyText, a: int)
    requires
        0 <= a < keys.len(),
        keys[a] == key,
        forall|i: int| 0 <= i < keys.len() && i != a ==> keys[i] != key,
    ensures
        members_of(assigned(keys, place), key) == seq![place],
    decreases keys.len(),
{
    let all = assigned(keys, place);
    let front = keys.drop_last();
    assert(all.drop_last() =~= assigned(front, place));
    assert(all.last() == (keys.last(), place));
    if a == keys.len() - 1 {
        assert(!front.contains(key)) by {
            if front.contains(key) {
                let j = choose|j: int| 0 <= j < front.len() && front[j] == key;
                assert(keys[j] == key);
            }
        }
        lemma_assigned_members(front, place, key);
        assert(members_of(all, key) =~= seq![place]);
    } else {
        assert(front[a] == key);
        lemma_assigned_once(front, place, key, a);
    }
}

/// A key that only the record at place `p` has, and has once, names a
/// group whose only member is `p`, as soon as the record is among those
/// grouped.
pub proof fn lemma_sole_member(
    maps: Mappings,
    records: Seq<PnPsRecord>,
    key: KeyText,
    p: int,
    a: int,
    n: nat,
)
    requires
        n <= records.len(),
        n <= usize::MAX,
        0 <= p < records.len(),
        0 <= a < maps.keys(records[p].uid).len(),
        maps.keys(records[p].uid)[a] == key,
        forall|i: int|
            0 <= i < maps.keys(records[p].uid).len() && i != a ==> maps.keys(records[p].uid)[i]
                != key,
        forall|q: int|
            0 <= q < records.len() && q != p ==> !maps.keys((#[trigger] records[q]).uid).contains(
                key,
            ),
    ensures
        members_of(maps.entries(records, n), key) == if p < n {
            seq![p as usize]
        } else {
            Seq::empty()
        },
    decreases n,
{
    if n > 0 {
        lemma_sole_member(maps, records, key, p, a, (n - 1) as nat);
        let front = maps.entries(records, (n - 1) as nat);
        let keys = maps.keys(records[n - 1].uid);
        let added = assigned(keys, (n - 1) as usize);
        lemma_members_concat(front, added, key);
        if n - 1 == p {
            lemma_assigned_once(keys, (n - 1) as usize, key, a);
            assert(members_of(front, key) + members_of(added, key) =~= seq![p as usize]);
        } else {
            assert(!maps.keys(records[n - 1].uid).contains(key));
            lemma_assigned_members(keys, (n - 1) as usize, key);
            assert(members_of(added, key) =~= Seq::<usize>::empty());
            assert(members_of(front, key) + members_of(added, key) =~= members_of(front, key));
        }
    }
}

/// The groups at `g` and `h` are two groups, named `first` and `second`,
/// with the one member `place` each.
pub open spec fn fans_out(
    groups: Seq<GroupText>,
    g: int,
    h: int,
    first: KeyText,
    second: KeyText,
    place: usize,
) -> bool {
    &&& 0 <= g < groups.len()
    &&& 0 <= h < groups.len()
    &&& g != h
    &&& groups[g].key == first
    &&& groups[h].key == second
    &&& groups[g].members == seq![place]
    &&& groups[h].members == seq![place]
}

/// Fan-out: a record whose UID is mapped to two different gene ids is the
/// sole member of two different groups, one for each gene id, where no
/// other record shares either key.
pub proof fn lemma_fan_out(maps: Mappings, records: Seq<PnPsRecord>, p: int, a: int, b: int)
    requires
        records.len() <= usize::MAX,
        0 <= p < records.len(),
        0 <= a < maps.keys(records[p].uid).len(),
        0 <= b < maps.keys(records[p].uid).len(),
        maps.keys(records[p].uid)[a] != maps.keys(records[p].uid)[b],
        forall|i: int|
            0 <= i < maps.keys(records[p].uid).len() && i != a ==> maps.keys(records[p].uid)[i]
                != maps.keys(records[p].uid)[a],
        forall|i: int|
            0 <= i < maps.keys(records[p].uid).len() && i != b ==> maps.keys(records[p].uid)[i]
                != maps.keys(records[p].uid)[b],
        forall|q: int|
            0 <= q < records.len() && q != p ==> {
                &&& !maps.keys((#[trigger] records[q]).uid).contains(maps.keys(records[p].uid)[a])
                &&& !maps.keys(records[q].uid).contains(maps.keys(records[p].uid)[b])
            },
    ensures
        exists|g: int, h: int|
            #[trigger] fans_out(
                grouped(maps.entries(records, records.len())),
                g,
                h,
                maps.keys(records[p].uid)[a],
                maps.keys(records[p].uid)[b],
                p as usize,
            ),
{
    let entries = maps.entries(records, records.len());
    let groups = grouped(entries);
    let ka = maps.keys(records[p].uid)[a];
    let kb = maps.keys(records[p].uid)[b];
    lemma_sole_member(maps, records, ka, p, a, records.len());
    lemma_sole_member(maps, records, kb, p, b, records.len());
    lemma_grouped(entries);
    assert(keys_of_groups(groups).contains(ka));
    assert(keys_of_groups(groups).contains(kb));
    let g = choose|g: int| 0 <= g < keys_of_groups(groups).len() && keys_of_groups(groups)[g] == ka;
    let h = choose|h: int| 0 <= h < keys_of_groups(groups).len() && keys_of_groups(groups)[h] == kb;
    assert(groups[g].key == ka);
    assert(groups[h].key == kb);
    assert(groups[g].members == members_of(entries, groups[g].key));
    assert(groups[h].members == members_of(entries, groups[h].key));
    assert(fans_out(groups, g, h, ka, kb, p as usize));
}

} // verus!

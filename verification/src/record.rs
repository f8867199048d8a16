//! Counter records and the per-sample tables that hold them.

use vstd::prelude::*;
use crate::lookup::{lemma_first_index, lemma_index_meaning, lemma_no_index, lemma_push_distinct, same_slot};
use crate::places::{
    code_of_uid, lemma_candidate_is_first, lemma_no_candidate, lemma_positions, positions_of,
    uid_code, uid_codes, Places,
};

verus! {

/// The counters kept for one annotation in one sample.
///
/// `exp_syn` and `exp_nonsyn` are the expected numbers of synonymous and
/// nonsynonymous substitution opportunities, `syn` and `nonsyn` the observed
/// substitutions, `coverage` the depth measured over the annotation.
#[derive(Clone, Copy, Debug, PartialEq, Eq, Structural)]
pub struct PnPsRecord {
    pub uid: u128,
    pub exp_syn: u64,
    pub exp_nonsyn: u64,
    pub syn: u64,
    pub nonsyn: u64,
    pub coverage: u32,
}

impl PnPsRecord {
    /// A record with the given expectations and nothing observed yet.
    pub fn new(uid: u128, exp_syn: u64, exp_nonsyn: u64) -> (out: Self)
        ensures
            out == (PnPsRecord { uid, exp_syn, exp_nonsyn, syn: 0, nonsyn: 0, coverage: 0 }),
    {
        PnPsRecord { uid, exp_syn, exp_nonsyn, syn: 0, nonsyn: 0, coverage: 0 }
    }

    /// Number of substitutions observed so far.
    pub open spec fn observed(self) -> int {
        self.syn + self.nonsyn
    }

    /// Number of substitutions observed so far, computed.
    pub fn observed_total(&self) -> (out: u128)
        ensures
            out == self.observed(),
    {
        self.syn as u128 + self.nonsyn as u128
    }

    /// Nothing has been observed for this record.
    pub open spec fn unobserved(self) -> bool {
        self.syn == 0 && self.nonsyn == 0
    }
}

/// The UIDs of `records`, position by position.
pub open spec fn uids_of(records: Seq<PnPsRecord>) -> Seq<u128> {
    records.map_values(|r: PnPsRecord| r.uid)
}

/// The first position of `records` that carries `uid`, if there is one.
pub open spec fn slot_of(records: Seq<PnPsRecord>, uid: u128) -> Option<int> {
    uids_of(records).index_of_first(uid)
}

/// No two records carry the same UID.
pub open spec fn distinct_uids(records: Seq<PnPsRecord>) -> bool {
    uids_of(records).no_duplicates()
}

/// Finds the first record that carries `uid`.
pub fn find_record(records: &Vec<PnPsRecord>, uid: u128) -> (found: Option<usize>)
    ensures
        same_slot(found, slot_of(records@, uid)),
        found matches Some(i) ==> i < records@.len() && records@[i as int].uid == uid,
{
    let mut i: usize = 0;
    while i < records.len()
        invariant
            i <= records.len(),
            forall|j: int| 0 <= j < i ==> uids_of(records@)[j] != uid,
        decreases records.len() - i,
    {
        if records[i].uid == uid {
            proof {
                lemma_first_index(uids_of(records@), uid, i as int);
            }
            return Some(i);
        }
        i += 1;
    }
    proof {
        lemma_no_index(uids_of(records@), uid);
    }
    None
}

/// Files the UIDs of `records` by code.
pub fn index_records(records: &Vec<PnPsRecord>) -> (out: Places)
    ensures
        out.wf(),
        out.codes() == uid_codes(uids_of(records@)),
{
    let mut places = Places::new();
    let ghost codes = uid_codes(uids_of(records@));
    let mut i: usize = 0;
    assert(codes.take(0) =~= Seq::<u64>::empty());
    while i < records.len()
        invariant
            i <= records.len(),
            codes == uid_codes(uids_of(records@)),
            places.wf(),
            places.codes() == codes.take(i as int),
        decreases records.len() - i,
    {
        places.push(code_of_uid(records[i].uid));
        assert(codes.take(i + 1) =~= codes.take(i as int).push(uid_code(records@[i as int].uid)));
        i += 1;
    }
    assert(codes.take(records@.len() as int) =~= codes);
    places
}

/// Finds the first record that carries `uid`, looking only at the records
/// that `places` files under the UID's code.
pub fn find_record_by_code(records: &Vec<PnPsRecord>, places: &Places, uid: u128) -> (found: Option<
    usize,
>)
    requires
        places.wf(),
        places.codes() == uid_codes(uids_of(records@)),
    ensures
        same_slot(found, slot_of(records@, uid)),
        found matches Some(i) ==> i < records@.len() && records@[i as int].uid == uid,
{
    let candidates = places.candidates(code_of_uid(uid));
    let ghost keys = uids_of(records@);
    let ghost codes = places.codes();
    proof {
        assert(records.len() == records@.len());
        lemma_positions(codes, uid_code(uid), codes.len());
    }
    let mut j: usize = 0;
    while j < candidates.len()
        invariant
            j <= candidates@.len(),
            keys == uids_of(records@),
            codes == uid_codes(keys),
            keys.len() <= usize::MAX,
            candidates@ == positions_of(codes, uid_code(uid), codes.len()),
            forall|k: int| 0 <= k < candidates@.len() ==> (#[trigger] candidates@[k]) < keys.len(),
            forall|k: int| 0 <= k < j ==> keys[(#[trigger] candidates@[k]) as int] != uid,
        decreases candidates.len() - j,
    {
        let i = candidates[j];
        if records[i].uid == uid {
            proof {
                lemma_candidate_is_first(keys, codes, uid, uid_code(uid), j as int);
            }
            return Some(i);
        }
        j += 1;
    }
    proof {
        lemma_no_candidate(keys, codes, uid, uid_code(uid));
    }
    None
}

/// The records of one sample, under the sample's display id.
#[derive(Clone, Debug, PartialEq, Eq)]
pub struct SampleTable {
    pub sample_id: String,
    pub records: Vec<PnPsRecord>,
}

impl SampleTable {
    /// No UID occurs twice in the table.
    pub open spec fn wf(self) -> bool {
        distinct_uids(self.records@)
    }
}

/// The display ids of `samples`, position by position.
pub open spec fn ids_of(samples: Seq<SampleTable>) -> Seq<Seq<char>> {
    samples.map_values(|t: SampleTable| t.sample_id@)
}

/// The UIDs held by each of `samples`.
pub open spec fn table_uids(samples: Seq<SampleTable>) -> Seq<Seq<u128>> {
    samples.map_values(|t: SampleTable| uids_of(t.records@))
}

/// The first position of `samples` whose display id is `id`, if any.
pub open spec fn sample_slot_of(samples: Seq<SampleTable>, id: Seq<char>) -> Option<int> {
    ids_of(samples).index_of_first(id)
}

/// Finds the first sample whose display id is `id`.
pub fn find_sample(samples: &Vec<SampleTable>, id: &String) -> (found: Option<usize>)
    ensures
        same_slot(found, sample_slot_of(samples@, id@)),
        found matches Some(i) ==> i < samples@.len() && samples@[i as int].sample_id@ == id@,
{
    let mut i: usize = 0;
    while i < samples.len()
        invariant
            i <= samples.len(),
            forall|j: int| 0 <= j < i ==> ids_of(samples@)[j] != id@,
        decreases samples.len() - i,
    {
        if samples[i].sample_id.eq(id) {
            proof {
                lemma_first_index(ids_of(samples@), id@, i as int);
            }
            return Some(i);
        }
        i += 1;
    }
    proof {
        lemma_no_index(ids_of(samples@), id@);
    }
    None
}

/// All samples of a run, in the order in which they were added.
#[derive(Clone, Debug, PartialEq, Eq)]
pub struct SamplePnPs {
    pub samples: Vec<SampleTable>,
}

impl SamplePnPs {
    /// No display id occurs twice, and every sample table is well formed.
    pub open spec fn wf(self) -> bool {
        &&& ids_of(self.samples@).no_duplicates()
        &&& forall|i: int| 0 <= i < self.samples@.len() ==> (#[trigger] self.samples@[i]).wf()
    }

    /// Every record of every sample is still unobserved.
    pub open spec fn unobserved(self) -> bool {
        forall|s: int, r: int|
            0 <= s < self.samples@.len() && 0 <= r < self.samples@[s].records@.len() ==> (
            #[trigger] self.samples@[s].records@[r]).unobserved()
    }

    /// A table without samples.
    pub fn new() -> (out: Self)
        ensures
            out.samples@.len() == 0,
            out.wf(),
    {
        SamplePnPs { samples: Vec::new() }
    }

    /// Files `records` under `sample_id`. A sample that is already present
    /// keeps its place and gets the new records; a new one goes to the end.
    pub fn insert(&mut self, sample_id: String, records: Vec<PnPsRecord>)
        ensures
            old(self).wf() && distinct_uids(records@) ==> final(self).wf(),
            match sample_slot_of(old(self).samples@, sample_id@) {
                Some(i) => {
                    &&& final(self).samples@.len() == old(self).samples@.len()
                    &&& final(self).samples@[i].sample_id@ == sample_id@
                    &&& final(self).samples@[i].records@ == records@
                    &&& forall|j: int|
                        0 <= j < old(self).samples@.len() && j != i ==> final(self).samples@[j]
                            == old(self).samples@[j]
                },
                None => {
                    &&& final(self).samples@.len() == old(self).samples@.len() + 1
                    &&& final(self).samples@.last().sample_id@ == sample_id@
                    &&& final(self).samples@.last().records@ == records@
                    &&& forall|j: int|
                        0 <= j < old(self).samples@.len() ==> final(self).samples@[j] == old(
                            self,
                        ).samples@[j]
                },
            },
    {
        let ghost before = self.samples@;
        match find_sample(&self.samples, &sample_id) {
            Some(i) => {
                self.samples[i].records = records;
                assert(ids_of(self.samples@) =~= ids_of(before));
            },
            None => {
                proof {
                    lemma_index_meaning(ids_of(before), sample_id@);
                    if ids_of(before).no_duplicates() {
                        lemma_push_distinct(ids_of(before), sample_id@);
                    }
                }
                self.samples.push(SampleTable { sample_id, records });
                assert(ids_of(self.samples@) =~= ids_of(before).push(sample_id@));
            },
        }
    }

    /// The record kept for `uid` in sample number `sample`; none where
    /// there is no such sample or the sample keeps no such record.
    pub fn get(&self, sample: usize, uid: u128) -> (out: Option<PnPsRecord>)
        ensures
            out == if sample < self.samples@.len() {
                match slot_of(self.samples@[sample as int].records@, uid) {
                    Some(i) => Some(self.samples@[sample as int].records@[i]),
                    None => None,
                }
            } else {
                None
            },
    {
        if sample >= self.samples.len() {
            return None;
        }
        proof {
            lemma_index_meaning(uids_of(self.samples@[sample as int].records@), uid);
        }
        match find_record(&self.samples[sample].records, uid) {
            Some(i) => Some(self.samples[sample].records[i]),
            None => None,
        }
    }

    /// Whether every record is still unobserved.
    pub fn is_unobserved(&self) -> (out: bool)
        ensures
            out == self.unobserved(),
    {
        let mut s: usize = 0;
        while s < self.samples.len()
            invariant
                s <= self.samples@.len(),
                forall|a: int, r: int|
                    0 <= a < s && 0 <= r < self.samples@[a].records@.len() ==> (
                    #[trigger] self.samples@[a].records@[r]).unobserved(),
            decreases self.samples.len() - s,
        {
            let mut r: usize = 0;
            while r < self.samples[s].records.len()
                invariant
                    s < self.samples@.len(),
                    r <= self.samples@[s as int].records@.len(),
                    forall|a: int, b: int|
                        0 <= a < s && 0 <= b < self.samples@[a].records@.len() ==> (
                        #[trigger] self.samples@[a].records@[b]).unobserved(),
                    forall|b: int|
                        0 <= b < r ==> (#[trigger] self.samples@[s as int].records@[b]).unobserved(),
                decreases self.samples[s as int].records.len() - r,
            {
                let rec = self.samples[s].records[r];
                if rec.syn != 0 || rec.nonsyn != 0 {
                    assert(!self.samples@[s as int].records@[r as int].unobserved());
                    return false;
                }
                r += 1;
            }
            s += 1;
        }
        true
    }
}

} // verus!

//! The variant classifier: one forward pass over the variant stream.
//!
//! The classifier is a state machine. `offer` takes the next record, applies
//! the filters, and leaves the list of synonymy questions that the record
//! raises; the caller answers them, in order, through `settle`, which alone
//! changes counters.

use vstd::prelude::*;
use crate::annotation::{
    annotation_uids, covering, lemma_covering_members, Annotation, AnnotationIndex,
};
use crate::lookup::{lemma_index_meaning, same_slot};
use crate::quality::{less_than, spec_less_than};
use crate::places::{text_codes, uid_codes, Places};
use crate::record::{
    find_record_by_code, find_sample, ids_of, index_records, table_uids, uids_of, PnPsRecord,
    SamplePnPs, SampleTable,
};
use crate::sample::{columns_of, display_of, find_entry, SampleEntry};
use crate::text::{find_name, index_names, names_of};

verus! {

/// The alternate allele called for one sample, under the sample's column
/// name in the variant file.
#[derive(Clone, Debug, PartialEq, Eq)]
pub struct SampleCall {
    pub sample: String,
    pub alt: String,
}

/// One record of the variant stream. `qual` is the binary64 bit pattern of
/// the quality score.
#[derive(Clone, Debug, PartialEq, Eq)]
pub struct VariantRecord {
    pub chrom: String,
    pub pos: u64,
    pub depth: u32,
    pub qual: u64,
    pub indel: bool,
    pub reference: String,
    pub calls: Vec<SampleCall>,
}

/// What the filters say of a record.
#[derive(Clone, Copy, Debug, PartialEq, Eq, Structural)]
pub enum Verdict {
    LowDepth,
    LowQuality,
    Indel,
    Accepted,
}

/// A synonymy question: is the allele of call `call`, seen in annotation
/// `annotation`, synonymous? The answer goes to record `slot` of sample
/// `sample`.
#[derive(Clone, Copy, Debug, PartialEq, Eq, Structural)]
pub struct Query {
    pub annotation: usize,
    pub call: usize,
    pub sample: usize,
    pub slot: usize,
}

/// The answer to a synonymy question.
#[derive(Clone, Copy, Debug, PartialEq, Eq, Structural)]
pub enum Outcome {
    Synonymous,
    Nonsynonymous,
    Undetermined,
}

/// Records seen and records skipped, by reason.
#[derive(Clone, Copy, Debug, PartialEq, Eq, Structural)]
pub struct Tally {
    pub total: u64,
    pub low_depth: u64,
    pub low_qual: u64,
    pub indel: u64,
}

impl Tally {
    /// The tally after one more record with the given verdict.
    pub open spec fn count(self, verdict: Verdict) -> Tally {
        match verdict {
            Verdict::LowDepth => Tally {
                total: (self.total + 1) as u64,
                low_depth: (self.low_depth + 1) as u64,
                ..self
            },
            Verdict::LowQuality => Tally {
                total: (self.total + 1) as u64,
                low_qual: (self.low_qual + 1) as u64,
                ..self
            },
            Verdict::Indel => Tally {
                total: (self.total + 1) as u64,
                indel: (self.indel + 1) as u64,
                ..self
            },
            Verdict::Accepted => Tally { total: (self.total + 1) as u64, ..self },
        }
    }

    /// Hundredths of a percent of the records that were skipped for low
    /// depth, rounded to the nearest, halves upward.
    pub open spec fn spec_low_depth_share(&self) -> Option<u128> {
        if self.total == 0 {
            None
        } else {
            Some(((self.low_depth as int * 20000 + self.total as int) / (2 * self.total as int)) as u128)
        }
    }

    /// The share of records skipped for low depth, in hundredths of a
    /// percent; `None` when no record was seen.
    #[verifier::when_used_as_spec(spec_low_depth_share)]
    pub fn low_depth_share(&self) -> (out: Option<u128>)
        ensures
            out == self.spec_low_depth_share(),
    {
        if self.total == 0 {
            None
        } else {
            let top: u128 = self.low_depth as u128 * 20000 + self.total as u128;
            let bottom: u128 = 2 * (self.total as u128);
            Some(top / bottom)
        }
    }
}

/// The verdict of the filters, which are tried in this order: depth,
/// quality, indel or multi-base reference.
pub open spec fn screen(record: VariantRecord, min_depth: u32, min_qual: u64) -> Verdict {
    if record.depth < min_depth {
        Verdict::LowDepth
    } else if spec_less_than(record.qual, min_qual) {
        Verdict::LowQuality
    } else if record.indel || record.reference@.len() > 1 {
        Verdict::Indel
    } else {
        Verdict::Accepted
    }
}

/// Applies the filters to `record`.
pub fn screen_record(record: &VariantRecord, min_depth: u32, min_qual: u64) -> (out: Verdict)
    ensures
        out == screen(*record, min_depth, min_qual),
{
    if record.depth < min_depth {
        Verdict::LowDepth
    } else if less_than(record.qual, min_qual) {
        Verdict::LowQuality
    } else if record.indel || record.reference.as_str().unicode_len() > 1 {
        Verdict::Indel
    } else {
        Verdict::Accepted
    }
}

/// What a classifier is set up with and never changes: the annotations, the
/// reference sequences at hand, the sample configuration, the display ids
/// and UIDs of the counter table, and the thresholds.
pub struct Setting {
    pub annotations: Seq<Annotation>,
    pub sequences: Seq<Seq<char>>,
    pub columns: Seq<Seq<char>>,
    pub display: Seq<Seq<char>>,
    pub ids: Seq<Seq<char>>,
    pub uids: Seq<Seq<u128>>,
    pub min_depth: u32,
    pub min_qual: u64,
}

impl Setting {
    /// The parts fit together and fit the machine.
    pub open spec fn wf(self) -> bool {
        &&& annotation_uids(self.annotations).no_duplicates()
        &&& self.annotations.len() <= usize::MAX
        &&& self.columns.len() == self.display.len()
        &&& self.ids.len() == self.uids.len()
        &&& self.ids.len() <= usize::MAX
        &&& forall|s: int| 0 <= s < self.uids.len() ==> (#[trigger] self.uids[s]).len() <= usize::MAX
    }

    /// The sample of the counter table that the variant-file column `name`
    /// stands for.
    pub open spec fn resolve(self, name: Seq<char>) -> Option<int> {
        match self.columns.index_of_first(name) {
            Some(k) => self.ids.index_of_first(self.display[k]),
            None => None,
        }
    }

    /// The question raised by call number `c`, made for column `name`, in
    /// annotation `a`: none where the column is unknown or the sample keeps
    /// no record for the annotation.
    pub open spec fn target(self, a: usize, c: int, name: Seq<char>) -> Option<Query> {
        match self.resolve(name) {
            Some(s) => match self.uids[s].index_of_first(self.annotations[a as int].uid) {
                Some(r) => Some(
                    Query { annotation: a, call: c as usize, sample: s as usize, slot: r as usize },
                ),
                None => None,
            },
            None => None,
        }
    }

    /// The questions raised in annotation `a` by the first `n` of `calls`.
    pub open spec fn call_queries(self, calls: Seq<SampleCall>, a: usize, n: nat) -> Seq<Query>
        decreases n,
    {
        if n == 0 {
            Seq::empty()
        } else {
            let before = self.call_queries(calls, a, (n - 1) as nat);
            match self.target(a, n - 1, calls[n - 1].sample@) {
                Some(q) => before.push(q),
                None => before,
            }
        }
    }

    /// The questions raised by `calls` in the first `m` of the annotations
    /// `hits`.
    pub open spec fn hit_queries(self, calls: Seq<SampleCall>, hits: Seq<usize>, m: nat) -> Seq<
        Query,
    >
        decreases m,
    {
        if m == 0 {
            Seq::empty()
        } else {
            self.hit_queries(calls, hits, (m - 1) as nat) + self.call_queries(
                calls,
                hits[m - 1],
                calls.len(),
            )
        }
    }

    /// The record passes the filters and its reference sequence is at hand.
    pub open spec fn admits(self, record: VariantRecord) -> bool {
        &&& screen(record, self.min_depth, self.min_qual) == Verdict::Accepted
        &&& self.sequences.contains(record.chrom@)
    }

    /// The record brings at least one call for sample `s`.
    pub open spec fn calls_sample(self, record: VariantRecord, s: int) -> bool {
        self.resolving(record.calls@, s, record.calls@.len()) > 0
    }

    /// How many records of `history` lie inside the annotation with UID
    /// `uid` and bring a call for sample `s`.
    pub open spec fn witnesses(self, history: Seq<VariantRecord>, s: int, uid: u128) -> nat
        decreases history.len(),
    {
        if history.len() == 0 {
            0
        } else {
            self.witnesses(history.drop_last(), s, uid) + if self.strikes(history.last(), uid)
                && self.calls_sample(history.last(), s) {
                1nat
            } else {
                0nat
            }
        }
    }

    /// No record of `history` brings more than one call for sample `s` in
    /// the annotation with UID `uid`.
    pub open spec fn single_calls(self, history: Seq<VariantRecord>, s: int, uid: u128) -> bool {
        forall|i: int| 0 <= i < history.len() ==> self.support(#[trigger] history[i], s, uid) <= 1
    }

    /// The annotations that cover the position of `record`.
    pub open spec fn hits(self, record: VariantRecord) -> Seq<usize> {
        covering(self.annotations, record.chrom@, record.pos, self.annotations.len())
    }

    /// The questions that `record` raises: none where it is skipped or its
    /// reference sequence is missing; else, annotation by annotation in
    /// index order, one for each call whose sample keeps a record for the
    /// annotation.
    pub open spec fn planned(self, record: VariantRecord) -> Seq<Query> {
        if self.admits(record) {
            self.hit_queries(record.calls@, self.hits(record), self.hits(record).len())
        } else {
            Seq::empty()
        }
    }

    /// How many of the first `n` of `calls` are for sample `s`.
    pub open spec fn resolving(self, calls: Seq<SampleCall>, s: int, n: nat) -> nat
        decreases n,
    {
        if n == 0 {
            0
        } else {
            self.resolving(calls, s, (n - 1) as nat) + if self.resolve(calls[n - 1].sample@)
                == Some(s) {
                1nat
            } else {
                0nat
            }
        }
    }

    /// Some annotation with UID `uid` covers the position of `record`.
    pub open spec fn strikes(self, record: VariantRecord, uid: u128) -> bool {
        exists|a: int|
            0 <= a < self.annotations.len() && (#[trigger] self.annotations[a]).uid == uid
                && self.annotations[a].covers(record.chrom@, record.pos)
    }

    /// How many calls `record` brings for sample `s` in the annotation with
    /// UID `uid`: those for the sample, where the record is admitted and the
    /// annotation covers its position; else none.
    pub open spec fn support(self, record: VariantRecord, s: int, uid: u128) -> nat {
        if self.admits(record) && self.strikes(record, uid) {
            self.resolving(record.calls@, s, record.calls@.len())
        } else {
            0
        }
    }

    /// The calls that the records of `history` bring, together, for sample
    /// `s` in the annotation with UID `uid`.
    pub open spec fn evidence(self, history: Seq<VariantRecord>, s: int, uid: u128) -> nat
        decreases history.len(),
    {
        if history.len() == 0 {
            0
        } else {
            self.evidence(history.drop_last(), s, uid) + self.support(history.last(), s, uid)
        }
    }
}

/// How many of the first `n` of `queries` go to record `r` of sample `s`.
pub open spec fn aimed(queries: Seq<Query>, s: int, r: int, n: nat) -> nat
    decreases n,
{
    if n == 0 {
        0
    } else {
        aimed(queries, s, r, (n - 1) as nat) + if queries[n - 1].sample == s && queries[n
            - 1].slot == r {
            1nat
        } else {
            0nat
        }
    }
}

/// The answer given to question number `i`: a question without an answer
/// counts as undetermined.
pub open spec fn outcome_at(outcomes: Seq<Outcome>, i: int) -> Outcome {
    if 0 <= i < outcomes.len() {
        outcomes[i]
    } else {
        Outcome::Undetermined
    }
}

/// How many of the first `n` of `queries` go to record `r` of sample `s`
/// and were answered with `kind`.
pub open spec fn gained(
    queries: Seq<Query>,
    outcomes: Seq<Outcome>,
    s: int,
    r: int,
    kind: Outcome,
    n: nat,
) -> nat
    decreases n,
{
    if n == 0 {
        0
    } else {
        gained(queries, outcomes, s, r, kind, (n - 1) as nat) + if queries[n - 1].sample == s
            && queries[n - 1].slot == r && outcome_at(outcomes, n - 1) == kind {
            1nat
        } else {
            0nat
        }
    }
}

/// `aimed` reads only the questions that it is asked about.
pub proof fn lemma_aimed_prefix(a: Seq<Query>, b: Seq<Query>, s: int, r: int, n: nat)
    requires
        n <= a.len(),
        n <= b.len(),
        forall|i: int| 0 <= i < n ==> a[i] == b[i],
    ensures
        aimed(a, s, r, n) == aimed(b, s, r, n),
    decreases n,
{
    if n > 0 {
        lemma_aimed_prefix(a, b, s, r, (n - 1) as nat);
    }
}

/// The questions of two lists put together go where those of each go.
pub proof fn lemma_aimed_concat(a: Seq<Query>, b: Seq<Query>, s: int, r: int, m: nat)
    requires
        m <= b.len(),
    ensures
        aimed(a + b, s, r, a.len() + m) == aimed(a, s, r, a.len()) + aimed(b, s, r, m),
    decreases m,
{
    if m == 0 {
        lemma_aimed_prefix(a + b, a, s, r, a.len());
    } else {
        lemma_aimed_concat(a, b, s, r, (m - 1) as nat);
        assert((a + b)[a.len() + m - 1] == b[m - 1]);
    }
}

/// No more questions go to one record than there are questions, and no
/// more answers of two kinds count for it than questions go to it.
pub proof fn lemma_gained_bound(
    queries: Seq<Query>,
    outcomes: Seq<Outcome>,
    s: int,
    r: int,
    n: nat,
)
    ensures
        gained(queries, outcomes, s, r, Outcome::Synonymous, n) + gained(
            queries,
            outcomes,
            s,
            r,
            Outcome::Nonsynonymous,
            n,
        ) <= aimed(queries, s, r, n),
        aimed(queries, s, r, n) <= n,
    decreases n,
{
    if n > 0 {
        lemma_gained_bound(queries, outcomes, s, r, (n - 1) as nat);
    }
}

/// The questions raised in one annotation by the calls go to a record only
/// if it is the record kept for that annotation, and then no more of them
/// than there are calls for the sample.
pub proof fn lemma_call_queries_bound(
    setting: Setting,
    calls: Seq<SampleCall>,
    a: usize,
    s: int,
    r: int,
    n: nat,
)
    requires
        n <= calls.len(),
        calls.len() <= usize::MAX,
        setting.wf(),
    ensures
        setting.call_queries(calls, a, n).len() <= n,
        aimed(setting.call_queries(calls, a, n), s, r, setting.call_queries(calls, a, n).len())
            <= if 0 <= s < setting.uids.len() && setting.uids[s].index_of_first(
            setting.annotations[a as int].uid,
        ) == Some(r) {
            setting.resolving(calls, s, n)
        } else {
            0
        },
        forall|i: int|
            0 <= i < setting.call_queries(calls, a, n).len() ==> {
                let q = #[trigger] setting.call_queries(calls, a, n)[i];
                &&& q.annotation == a
                &&& q.call < n
                &&& q.sample < setting.uids.len()
                &&& q.slot < setting.uids[q.sample as int].len()
            },
    decreases n,
{
    if n > 0 {
        lemma_call_queries_bound(setting, calls, a, s, r, (n - 1) as nat);
        let before = setting.call_queries(calls, a, (n - 1) as nat);
        let now = setting.call_queries(calls, a, n);
        let name = calls[n - 1].sample@;
        lemma_index_meaning(setting.columns, name);
        match setting.resolve(name) {
            Some(t) => {
                lemma_index_meaning(
                    setting.ids,
                    setting.display[setting.columns.index_of_first(name).unwrap()],
                );
                lemma_index_meaning(setting.uids[t], setting.annotations[a as int].uid);
            },
            None => {},
        }
        match setting.target(a, n - 1, name) {
            Some(q) => {
                lemma_aimed_prefix(now, before, s, r, before.len());
            },
            None => {},
        }
    }
}

/// The questions raised by the calls in a run of distinct annotations go
/// to one record no more often than there are calls for the sample, and
/// not at all unless one of the annotations is the record's own.
pub proof fn lemma_hit_queries_bound(
    setting: Setting,
    calls: Seq<SampleCall>,
    hits: Seq<usize>,
    s: int,
    r: int,
    m: nat,
)
    requires
        m <= hits.len(),
        calls.len() <= usize::MAX,
        setting.wf(),
        0 <= s < setting.uids.len(),
        0 <= r < setting.uids[s].len(),
        forall|k: int| 0 <= k < hits.len() ==> (#[trigger] hits[k]) < setting.annotations.len(),
        forall|k: int, l: int| 0 <= k < l < hits.len() ==> hits[k] < hits[l],
    ensures
        aimed(
            setting.hit_queries(calls, hits, m),
            s,
            r,
            setting.hit_queries(calls, hits, m).len(),
        ) <= if exists|j: int|
            0 <= j < m && setting.annotations[(#[trigger] hits[j]) as int].uid
                == setting.uids[s][r] {
            setting.resolving(calls, s, calls.len())
        } else {
            0
        },
        forall|i: int|
            0 <= i < setting.hit_queries(calls, hits, m).len() ==> {
                let q = #[trigger] setting.hit_queries(calls, hits, m)[i];
                &&& q.sample < setting.uids.len()
                &&& q.slot < setting.uids[q.sample as int].len()
                &&& q.annotation < setting.annotations.len()
                &&& q.call < calls.len()
            },
    decreases m,
{
    if m > 0 {
        let last = hits[m - 1];
        let before = setting.hit_queries(calls, hits, (m - 1) as nat);
        let added = setting.call_queries(calls, last, calls.len());
        lemma_hit_queries_bound(setting, calls, hits, s, r, (m - 1) as nat);
        lemma_call_queries_bound(setting, calls, last, s, r, calls.len());
        lemma_aimed_concat(before, added, s, r, added.len());
        let uid = setting.uids[s][r];
        lemma_index_meaning(setting.uids[s], setting.annotations[last as int].uid);
        if setting.uids[s].index_of_first(setting.annotations[last as int].uid) == Some(r) {
            assert(setting.annotations[last as int].uid == uid);
            assert forall|j: int| 0 <= j < m - 1 implies setting.annotations[(
            #[trigger] hits[j]) as int].uid != uid by {
                assert(hits[j] < hits[m - 1]);
                assert(annotation_uids(setting.annotations)[hits[j] as int] != annotation_uids(
                    setting.annotations,
                )[last as int]);
            }
            assert(setting.annotations[hits[m - 1] as int].uid == uid);
        }
    }
}

/// The questions that a record raises go to one record no more often than
/// the record brings calls for it.
pub proof fn lemma_planned_bound(setting: Setting, record: VariantRecord, s: int, r: int)
    requires
        setting.wf(),
        record.calls@.len() <= usize::MAX,
        0 <= s < setting.uids.len(),
        0 <= r < setting.uids[s].len(),
    ensures
        aimed(setting.planned(record), s, r, setting.planned(record).len()) <= setting.support(
            record,
            s,
            setting.uids[s][r],
        ),
        forall|i: int|
            0 <= i < setting.planned(record).len() ==> {
                let q = #[trigger] setting.planned(record)[i];
                &&& q.sample < setting.uids.len()
                &&& q.slot < setting.uids[q.sample as int].len()
                &&& q.annotation < setting.annotations.len()
                &&& q.call < record.calls@.len()
            },
{
    if setting.admits(record) {
        let hits = setting.hits(record);
        lemma_covering_members(
            setting.annotations,
            record.chrom@,
            record.pos,
            setting.annotations.len(),
        );
        lemma_hit_queries_bound(setting, record.calls@, hits, s, r, hits.len());
        let uid = setting.uids[s][r];
        if exists|j: int|
            0 <= j < hits.len() && setting.annotations[(#[trigger] hits[j]) as int].uid == uid {
            let j = choose|j: int|
                0 <= j < hits.len() && setting.annotations[(#[trigger] hits[j]) as int].uid
                    == uid;
            assert(setting.annotations[hits[j] as int].covers(record.chrom@, record.pos));
            assert(setting.strikes(record, uid));
        }
    }
}

/// The record at place `r` of sample `s`.
pub open spec fn record_at(table: Seq<SampleTable>, s: int, r: int) -> PnPsRecord {
    table[s].records@[r]
}

/// `(s, r)` is a place of `table`.
pub open spec fn in_table(table: Seq<SampleTable>, s: int, r: int) -> bool {
    0 <= s < table.len() && 0 <= r < table[s].records@.len()
}

/// Every question names a place of `table`.
pub open spec fn well_aimed(table: Seq<SampleTable>, queries: Seq<Query>) -> bool {
    forall|i: int|
        0 <= i < queries.len() ==> in_table(
            table,
            (#[trigger] queries[i]).sample as int,
            queries[i].slot as int,
        )
}

/// `record` after the answers to the first `n` of `queries` were counted
/// for place `(s, r)`: one more synonymous substitution for each answer
/// "synonymous" to a question that goes there, one more nonsynonymous one
/// for each answer "nonsynonymous".
pub open spec fn advanced(
    record: PnPsRecord,
    queries: Seq<Query>,
    outcomes: Seq<Outcome>,
    s: int,
    r: int,
    n: nat,
) -> PnPsRecord {
    PnPsRecord {
        syn: (record.syn + gained(queries, outcomes, s, r, Outcome::Synonymous, n)) as u64,
        nonsyn: (record.nonsyn + gained(queries, outcomes, s, r, Outcome::Nonsynonymous, n)) as u64,
        ..record
    }
}

/// Counts the answers `outcomes` to `queries` in `table`. Answer number `i`
/// belongs to question number `i`; a question without an answer counts as
/// undetermined, an answer without a question is ignored.
pub fn apply_outcomes(table: &mut SamplePnPs, queries: &Vec<Query>, outcomes: &Vec<Outcome>)
    requires
        well_aimed(old(table).samples@, queries@),
        forall|s: int, r: int|
            in_table(old(table).samples@, s, r) ==> (#[trigger] record_at(
                old(table).samples@,
                s,
                r,
            )).observed() + queries@.len() <= u64::MAX,
    ensures
        final(table).samples@.len() == old(table).samples@.len(),
        ids_of(final(table).samples@) == ids_of(old(table).samples@),
        table_uids(final(table).samples@) == table_uids(old(table).samples@),
        queries@.len() == 0 ==> final(table).samples@ == old(table).samples@,
        forall|s: int, r: int|
            in_table(old(table).samples@, s, r) ==> (#[trigger] record_at(
                final(table).samples@,
                s,
                r,
            )).observed() <= record_at(old(table).samples@, s, r).observed() + aimed(
                queries@,
                s,
                r,
                queries@.len(),
            ),
        forall|s: int, r: int| #[trigger] aimed(queries@, s, r, queries@.len()) <= queries@.len(),
        forall|s: int, r: int|
            in_table(old(table).samples@, s, r) ==> (#[trigger] record_at(
                final(table).samples@,
                s,
                r,
            )).uid == record_at(old(table).samples@, s, r).uid,
        forall|s: int, r: int|
            in_table(old(table).samples@, s, r) ==> (#[trigger] record_at(
                final(table).samples@,
                s,
                r,
            )).syn == record_at(old(table).samples@, s, r).syn + gained(
                queries@,
                outcomes@,
                s,
                r,
                Outcome::Synonymous,
                queries@.len(),
            ),
        forall|s: int, r: int|
            in_table(old(table).samples@, s, r) ==> (#[trigger] record_at(
                final(table).samples@,
                s,
                r,
            )).nonsyn == record_at(old(table).samples@, s, r).nonsyn + gained(
                queries@,
                outcomes@,
                s,
                r,
                Outcome::Nonsynonymous,
                queries@.len(),
            ),
        forall|s: int|
            0 <= s < old(table).samples@.len() ==> (#[trigger] final(table).samples@[s]).records@.len()
                == old(table).samples@[s].records@.len(),
        forall|s: int, r: int|
            in_table(old(table).samples@, s, r) ==> #[trigger] record_at(
                final(table).samples@,
                s,
                r,
            ) == advanced(
                record_at(old(table).samples@, s, r),
                queries@,
                outcomes@,
                s,
                r,
                queries@.len(),
            ),
    no_unwind
{
    let ghost before = table.samples@;
    let n = queries.len();
    let mut i: usize = 0;
    while i < n
        invariant
            i <= n,
            n == queries@.len(),
            well_aimed(before, queries@),
            i == 0 ==> table.samples@ == before,
            table.samples@.len() == before.len(),
            forall|s: int|
                0 <= s < before.len() ==> {
                    &&& (#[trigger] table.samples@[s]).records@.len() == before[s].records@.len()
                    &&& table.samples@[s].sample_id@ == before[s].sample_id@
                },
            forall|s: int, r: int|
                in_table(before, s, r) ==> (#[trigger] record_at(before, s, r)).observed()
                    + queries@.len() <= u64::MAX,
            forall|s: int, r: int|
                in_table(before, s, r) ==> #[trigger] record_at(table.samples@, s, r) == advanced(
                    record_at(before, s, r),
                    queries@,
                    outcomes@,
                    s,
                    r,
                    i as nat,
                ),
        decreases n - i,
    {
        let q = queries[i];
        let outcome = if i < outcomes.len() {
            outcomes[i]
        } else {
            Outcome::Undetermined
        };
        let ghost middle = table.samples@;
        proof {
            assert(in_table(before, q.sample as int, q.slot as int));
            lemma_gained_bound(queries@, outcomes@, q.sample as int, q.slot as int, i as nat);
            assert(record_at(middle, q.sample as int, q.slot as int) == advanced(
                record_at(before, q.sample as int, q.slot as int),
                queries@,
                outcomes@,
                q.sample as int,
                q.slot as int,
                i as nat,
            ));
            assert(record_at(before, q.sample as int, q.slot as int).observed() + queries@.len()
                <= u64::MAX);
        }
        match outcome {
            Outcome::Synonymous => {
                let old_syn = table.samples[q.sample].records[q.slot].syn;
                table.samples[q.sample].records[q.slot].syn = old_syn + 1;
            },
            Outcome::Nonsynonymous => {
                let old_nonsyn = table.samples[q.sample].records[q.slot].nonsyn;
                table.samples[q.sample].records[q.slot].nonsyn = old_nonsyn + 1;
            },
            Outcome::Undetermined => {},
        }
        proof {
            assert forall|s: int, r: int| in_table(before, s, r) implies #[trigger] record_at(
                table.samples@,
                s,
                r,
            ) == advanced(record_at(before, s, r), queries@, outcomes@, s, r, (i + 1) as nat) by {
                assert(record_at(middle, s, r) == advanced(
                    record_at(before, s, r),
                    queries@,
                    outcomes@,
                    s,
                    r,
                    i as nat,
                ));
                lemma_gained_bound(queries@, outcomes@, s, r, i as nat);
                assert(record_at(before, s, r).observed() + queries@.len() <= u64::MAX);
            }
        }
        i += 1;
    }
    proof {
        assert forall|s: int, r: int| in_table(before, s, r) implies (#[trigger] record_at(
            table.samples@,
            s,
            r,
        )).observed() <= record_at(before, s, r).observed() + aimed(
            queries@,
            s,
            r,
            queries@.len(),
        ) by {
            lemma_gained_bound(queries@, outcomes@, s, r, queries@.len());
            assert(record_at(before, s, r).observed() + queries@.len() <= u64::MAX);
            assert(record_at(table.samples@, s, r) == advanced(
                record_at(before, s, r),
                queries@,
                outcomes@,
                s,
                r,
                queries@.len(),
            ));
        }
        assert forall|s: int, r: int| #[trigger]
            aimed(queries@, s, r, queries@.len()) <= queries@.len() by {
            lemma_gained_bound(queries@, outcomes@, s, r, queries@.len());
        }
        assert forall|s: int, r: int| in_table(before, s, r) implies (#[trigger] record_at(
            table.samples@,
            s,
            r,
        )).syn == record_at(before, s, r).syn + gained(
            queries@,
            outcomes@,
            s,
            r,
            Outcome::Synonymous,
            queries@.len(),
        ) by {
            lemma_gained_bound(queries@, outcomes@, s, r, queries@.len());
            assert(record_at(before, s, r).observed() + queries@.len() <= u64::MAX);
            assert(record_at(table.samples@, s, r) == advanced(
                record_at(before, s, r),
                queries@,
                outcomes@,
                s,
                r,
                queries@.len(),
            ));
        }
        assert forall|s: int, r: int| in_table(before, s, r) implies (#[trigger] record_at(
            table.samples@,
            s,
            r,
        )).nonsyn == record_at(before, s, r).nonsyn + gained(
            queries@,
            outcomes@,
            s,
            r,
            Outcome::Nonsynonymous,
            queries@.len(),
        ) by {
            lemma_gained_bound(queries@, outcomes@, s, r, queries@.len());
            assert(record_at(before, s, r).observed() + queries@.len() <= u64::MAX);
            assert(record_at(table.samples@, s, r) == advanced(
                record_at(before, s, r),
                queries@,
                outcomes@,
                s,
                r,
                queries@.len(),
            ));
        }
        assert forall|s: int, r: int| in_table(before, s, r) implies (#[trigger] record_at(
            table.samples@,
            s,
            r,
        )).uid == record_at(before, s, r).uid by {
            assert(record_at(table.samples@, s, r) == advanced(
                record_at(before, s, r),
                queries@,
                outcomes@,
                s,
                r,
                queries@.len(),
            ));
        }
        assert(ids_of(table.samples@) =~= ids_of(before));
        assert forall|s: int| 0 <= s < before.len() implies uids_of(
            (#[trigger] table.samples@[s]).records@,
        ) =~= uids_of(before[s].records@) by {
            assert forall|r: int| 0 <= r < before[s].records@.len() implies uids_of(
                table.samples@[s].records@,
            )[r] == uids_of(before[s].records@)[r] by {
                assert(in_table(before, s, r));
                assert(record_at(table.samples@, s, r).uid == record_at(before, s, r).uid);
            }
        }
        assert(table_uids(table.samples@) =~= table_uids(before));
    }
}

/// The tally after one more record with the given verdict.
fn counted(tally: Tally, verdict: Verdict) -> (out: Tally)
    requires
        tally.total < u64::MAX,
        tally.low_depth + tally.low_qual + tally.indel <= tally.total,
    ensures
        out == tally.count(verdict),
        out.low_depth + out.low_qual + out.indel <= out.total,
{
    match verdict {
        Verdict::LowDepth => Tally {
            total: tally.total + 1,
            low_depth: tally.low_depth + 1,
            low_qual: tally.low_qual,
            indel: tally.indel,
        },
        Verdict::LowQuality => Tally {
            total: tally.total + 1,
            low_depth: tally.low_depth,
            low_qual: tally.low_qual + 1,
            indel: tally.indel,
        },
        Verdict::Indel => Tally {
            total: tally.total + 1,
            low_depth: tally.low_depth,
            low_qual: tally.low_qual,
            indel: tally.indel + 1,
        },
        Verdict::Accepted => Tally {
            total: tally.total + 1,
            low_depth: tally.low_depth,
            low_qual: tally.low_qual,
            indel: tally.indel,
        },
    }
}

/// The state of one pass over the variant stream.
pub struct Classifier {
    index: AnnotationIndex,
    sequences: Vec<String>,
    samples: Vec<SampleEntry>,
    table: SamplePnPs,
    min_depth: u32,
    min_qual: u64,
    tally: Tally,
    pending: Vec<Query>,
    decided: u64,
    sequence_places: Places,
    sample_route: Vec<Option<usize>>,
    slot_route: Vec<Vec<Option<usize>>>,
    history: Ghost<Seq<VariantRecord>>,
}

/// The routes are those of the setting: for every configured column the
/// sample of the table that it stands for, and for every sample and
/// annotation the place of the record that the sample keeps for it.
pub open spec fn routes_fit(
    setting: Setting,
    sample_route: Seq<Option<usize>>,
    slot_route: Seq<Vec<Option<usize>>>,
) -> bool {
    &&& sample_route.len() == setting.columns.len()
    &&& forall|k: int|
        0 <= k < sample_route.len() ==> same_slot(
            #[trigger] sample_route[k],
            setting.ids.index_of_first(setting.display[k]),
        )
    &&& slot_route.len() == setting.uids.len()
    &&& forall|s: int|
        0 <= s < slot_route.len() ==> (#[trigger] slot_route[s])@.len() == setting.annotations.len()
    &&& forall|s: int, a: int|
        0 <= s < slot_route.len() && 0 <= a < setting.annotations.len() ==> same_slot(
            #[trigger] slot_route[s]@[a],
            setting.uids[s].index_of_first(setting.annotations[a].uid),
        )
}

/// For every entry the sample of the table that it stands for.
fn route_samples(samples: &Vec<SampleEntry>, table: &SamplePnPs) -> (out: Vec<Option<usize>>)
    ensures
        out@.len() == samples@.len(),
        forall|k: int|
            0 <= k < out@.len() ==> same_slot(
                #[trigger] out@[k],
                ids_of(table.samples@).index_of_first(display_of(samples@)[k]),
            ),
{
    let mut out: Vec<Option<usize>> = Vec::new();
    let mut k: usize = 0;
    while k < samples.len()
        invariant
            k <= samples.len(),
            out@.len() == k,
            forall|j: int|
                0 <= j < k ==> same_slot(
                    #[trigger] out@[j],
                    ids_of(table.samples@).index_of_first(display_of(samples@)[j]),
                ),
        decreases samples.len() - k,
    {
        out.push(find_sample(&table.samples, &samples[k].sample_id));
        k += 1;
    }
    out
}

/// For every annotation the place of the record that carries its UID.
fn route_slots(index: &AnnotationIndex, records: &Vec<PnPsRecord>) -> (out: Vec<Option<usize>>)
    ensures
        out@.len() == index.annotations().len(),
        forall|a: int|
            0 <= a < out@.len() ==> same_slot(
                #[trigger] out@[a],
                uids_of(records@).index_of_first(index.annotations()[a].uid),
            ),
{
    let mut out: Vec<Option<usize>> = Vec::new();
    let total = index.len();
    let places = index_records(records);
    let mut a: usize = 0;
    while a < total
        invariant
            a <= total,
            total == index.annotations().len(),
            places.wf(),
            places.codes() == uid_codes(uids_of(records@)),
            out@.len() == a,
            forall|b: int|
                0 <= b < a ==> same_slot(
                    #[trigger] out@[b],
                    uids_of(records@).index_of_first(index.annotations()[b].uid),
                ),
        decreases total - a,
    {
        out.push(find_record_by_code(records, &places, index.annotation(a).uid));
        a += 1;
    }
    out
}

impl Classifier {
    /// What the classifier was set up with.
    pub closed spec fn setting(&self) -> Setting {
        Setting {
            annotations: self.index.annotations(),
            sequences: names_of(self.sequences@),
            columns: columns_of(self.samples@),
            display: display_of(self.samples@),
            ids: ids_of(self.table.samples@),
            uids: table_uids(self.table.samples@),
            min_depth: self.min_depth,
            min_qual: self.min_qual,
        }
    }

    /// The counter table, sample by sample.
    pub closed spec fn table(&self) -> Seq<SampleTable> {
        self.table.samples@
    }

    /// Records seen and skipped so far.
    pub closed spec fn tally(&self) -> Tally {
        self.tally
    }

    /// The questions raised by the last record and not yet answered.
    pub closed spec fn pending(&self) -> Seq<Query> {
        self.pending@
    }

    /// The number of questions settled so far.
    pub closed spec fn decided(&self) -> u64 {
        self.decided
    }

    /// The records offered so far, in order.
    pub closed spec fn history(&self) -> Seq<VariantRecord> {
        self.history@
    }

    /// The invariant of the pass: the pending questions name places of the
    /// table, and for every place the substitutions counted there, together
    /// with the questions still pending for it, do not exceed the calls
    /// that the records offered so far bring for it.
    #[verifier::type_invariant]
    pub closed spec fn wf(&self) -> bool {
        &&& self.index.wf()
        &&& self.setting().wf()
        &&& self.tally.low_depth + self.tally.low_qual + self.tally.indel <= self.tally.total
        &&& well_aimed(self.table.samples@, self.pending@)
        &&& self.sequence_places.wf()
        &&& self.sequence_places.codes() == text_codes(names_of(self.sequences@))
        &&& routes_fit(self.setting(), self.sample_route@, self.slot_route@)
        &&& forall|s: int, r: int|
            in_table(self.table.samples@, s, r) ==> (#[trigger] record_at(
                self.table.samples@,
                s,
                r,
            )).observed() + aimed(self.pending@, s, r, self.pending@.len())
                <= self.setting().evidence(
                self.history@,
                s,
                record_at(self.table.samples@, s, r).uid,
            )
        &&& forall|s: int, r: int|
            in_table(self.table.samples@, s, r) ==> (#[trigger] record_at(
                self.table.samples@,
                s,
                r,
            )).observed() <= self.decided
    }

    /// Sets up a pass over `table`. A pass starts from counters at zero:
    /// there is none over a table in which something is observed already.
    pub fn new(
        index: AnnotationIndex,
        sequences: Vec<String>,
        samples: Vec<SampleEntry>,
        table: SamplePnPs,
        min_depth: u32,
        min_qual: u64,
    ) -> (out: Option<Self>)
        ensures
            out is Some <==> table.unobserved(),
            out matches Some(pass) ==> {
                &&& pass.wf()
                &&& pass.setting() == (Setting {
                    annotations: index.annotations(),
                    sequences: names_of(sequences@),
                    columns: columns_of(samples@),
                    display: display_of(samples@),
                    ids: ids_of(table.samples@),
                    uids: table_uids(table.samples@),
                    min_depth,
                    min_qual,
                })
                &&& pass.table() == table.samples@
                &&& pass.tally() == (Tally { total: 0, low_depth: 0, low_qual: 0, indel: 0 })
                &&& pass.pending() == Seq::<Query>::empty()
                &&& pass.decided() == 0
                &&& pass.history() == Seq::<VariantRecord>::empty()
            },
    {
        if !table.is_unobserved() {
            return None;
        }
        proof {
            use_type_invariant(&index);
            index.lemma_distinct();
        }
        let total = index.len();
        let sequence_places = index_names(&sequences);
        let sample_route = route_samples(&samples, &table);
        let mut slot_route: Vec<Vec<Option<usize>>> = Vec::new();
        let mut s: usize = 0;
        while s < table.samples.len()
            invariant
                s <= table.samples.len(),
                slot_route@.len() == s,
                forall|t: int|
                    0 <= t < s ==> (#[trigger] slot_route@[t])@.len() == index.annotations().len(),
                forall|t: int, a: int|
                    0 <= t < s && 0 <= a < index.annotations().len() ==> same_slot(
                        #[trigger] slot_route@[t]@[a],
                        uids_of(table.samples@[t].records@).index_of_first(
                            index.annotations()[a].uid,
                        ),
                    ),
            decreases table.samples.len() - s,
        {
            slot_route.push(route_slots(&index, &table.samples[s].records));
            s += 1;
        }
        proof {
            assert forall|s: int| 0 <= s < table_uids(table.samples@).len() implies (
            #[trigger] table_uids(table.samples@)[s]).len() <= usize::MAX by {
                assert(table.samples@[s].records.len() == table.samples@[s].records@.len());
            }
            assert forall|s: int, r: int| in_table(table.samples@, s, r) implies (
            #[trigger] record_at(table.samples@, s, r)).observed() == 0 by {
                assert(table.samples@[s].records@[r].unobserved());
            }
            assert(table.samples.len() == table.samples@.len());
        }
        let out = Classifier {
            index,
            sequences,
            samples,
            table,
            min_depth,
            min_qual,
            tally: Tally { total: 0, low_depth: 0, low_qual: 0, indel: 0 },
            pending: Vec::new(),
            decided: 0,
            sequence_places,
            sample_route,
            slot_route,
            history: Ghost(Seq::empty()),
        };
        proof {
            use_type_invariant(&out);
        }
        Some(out)
    }

    /// Takes the next record of the stream: applies the filters, counts the
    /// record, and leaves the questions that it raises. Questions of an
    /// earlier record that were never settled are dropped. No counter of
    /// the table changes.
    #[verifier::loop_isolation(false)]
    pub fn offer(&mut self, record: &VariantRecord) -> (verdict: Verdict)
        requires
            old(self).tally().total < u64::MAX,
        ensures
            final(self).wf(),
            final(self).setting() == old(self).setting(),
            final(self).table() == old(self).table(),
            final(self).decided() == old(self).decided(),
            verdict == screen(*record, old(self).setting().min_depth, old(self).setting().min_qual),
            final(self).tally() == old(self).tally().count(verdict),
            final(self).pending() == old(self).setting().planned(*record),
            final(self).history() == old(self).history().push(*record),
            verdict != Verdict::Accepted ==> final(self).pending().len() == 0,
            final(self).pending().len() <= usize::MAX,
            final(self).tally().total == old(self).tally().total + 1,
            final(self).tally().low_depth == old(self).tally().low_depth + if verdict
                == Verdict::LowDepth {
                1int
            } else {
                0int
            },
            final(self).tally().low_qual == old(self).tally().low_qual + if verdict
                == Verdict::LowQuality {
                1int
            } else {
                0int
            },
            final(self).tally().indel == old(self).tally().indel + if verdict == Verdict::Indel {
                1int
            } else {
                0int
            },
            final(self).tally().low_depth + final(self).tally().low_qual + final(self).tally().indel
                <= final(self).tally().total,
    {
        proof {
            use_type_invariant(&*self);
        }
        let ghost setting = self.setting();
        let ghost calls = record.calls@;
        let verdict = screen_record(record, self.min_depth, self.min_qual);
        let mut pending: Vec<Query> = Vec::new();
        if verdict == Verdict::Accepted && find_name(
            &self.sequences,
            &self.sequence_places,
            &record.chrom,
        ).is_some() {
            let hits = self.index.covering(&record.chrom, record.pos);
            proof {
                lemma_covering_members(
                    setting.annotations,
                    record.chrom@,
                    record.pos,
                    setting.annotations.len(),
                );
            }
            let mut m: usize = 0;
            while m < hits.len()
                invariant
                    m <= hits@.len(),
                    pending@ == setting.hit_queries(calls, hits@, m as nat),
                decreases hits.len() - m,
            {
                let a = hits[m];
                let uid = self.index.annotation(a).uid;
                let ghost base = pending@;
                let mut c: usize = 0;
                while c < record.calls.len()
                    invariant
                        c <= calls.len(),
                        pending@ == base + setting.call_queries(calls, a, c as nat),
                    decreases record.calls.len() - c,
                {
                    let ghost prior = setting.call_queries(calls, a, c as nat);
                    proof {
                        lemma_index_meaning(setting.columns, record.calls@[c as int].sample@);
                    }
                    match find_entry(&self.samples, &record.calls[c].sample) {
                        Some(k) => match self.sample_route[k] {
                            Some(s) => match {
                                proof {
                                    lemma_index_meaning(setting.ids, setting.display[k as int]);
                                }
                                self.slot_route[s][a]
                            } {
                                Some(r) => {
                                    let q = Query { annotation: a, call: c, sample: s, slot: r };
                                    pending.push(q);
                                    assert(pending@ =~= base + prior.push(q));
                                },
                                None => {},
                            },
                            None => {},
                        },
                        None => {},
                    }
                    c += 1;
                }
                m += 1;
            }
        }
        let ghost history = self.history@.push(*record);
        proof {
            assert(record.calls.len() == record.calls@.len());
            assert(pending.len() == pending@.len());
            assert(pending@ == setting.planned(*record));
            assert(history.drop_last() =~= self.history@);
            assert forall|s: int, r: int| in_table(self.table.samples@, s, r) implies (
            #[trigger] record_at(self.table.samples@, s, r)).observed() + aimed(
                pending@,
                s,
                r,
                pending@.len(),
            ) <= setting.evidence(history, s, record_at(self.table.samples@, s, r).uid) by {
                lemma_planned_bound(setting, *record, s, r);
                assert(setting.uids[s][r] == record_at(self.table.samples@, s, r).uid);
            }
            assert(well_aimed(self.table.samples@, pending@)) by {
                lemma_planned_aim(setting, *record);
            }
        }
        self.tally = counted(self.tally, verdict);
        self.pending = Vec::new();
        self.history = Ghost(history);
        self.pending = pending;
        proof {
            use_type_invariant(&*self);
        }
        verdict
    }

    /// Counts the answers to the pending questions, answer number `i` for
    /// question number `i`, and clears the questions. A question without
    /// an answer counts as undetermined.
    pub fn settle(&mut self, outcomes: &Vec<Outcome>)
        requires
            old(self).decided() + old(self).pending().len() <= u64::MAX,
        ensures
            final(self).wf(),
            final(self).setting() == old(self).setting(),
            final(self).tally() == old(self).tally(),
            final(self).history() == old(self).history(),
            final(self).pending().len() == 0,
            final(self).decided() == old(self).decided() + old(self).pending().len(),
            final(self).table().len() == old(self).table().len(),
            ids_of(final(self).table()) == ids_of(old(self).table()),
            old(self).pending().len() == 0 ==> final(self).table() == old(self).table(),
            forall|s: int|
                0 <= s < old(self).table().len() ==> (#[trigger] final(self).table()[s]).records@.len()
                    == old(self).table()[s].records@.len(),
            forall|s: int, r: int|
                in_table(old(self).table(), s, r) ==> #[trigger] record_at(
                    final(self).table(),
                    s,
                    r,
                ) == advanced(
                    record_at(old(self).table(), s, r),
                    old(self).pending(),
                    outcomes@,
                    s,
                    r,
                    old(self).pending().len(),
                ),
            forall|s: int, r: int|
                in_table(old(self).table(), s, r) ==> (#[trigger] record_at(
                    final(self).table(),
                    s,
                    r,
                )).syn == record_at(old(self).table(), s, r).syn + gained(
                    old(self).pending(),
                    outcomes@,
                    s,
                    r,
                    Outcome::Synonymous,
                    old(self).pending().len(),
                ),
            forall|s: int, r: int|
                in_table(old(self).table(), s, r) ==> (#[trigger] record_at(
                    final(self).table(),
                    s,
                    r,
                )).nonsyn == record_at(old(self).table(), s, r).nonsyn + gained(
                    old(self).pending(),
                    outcomes@,
                    s,
                    r,
                    Outcome::Nonsynonymous,
                    old(self).pending().len(),
                ),
            forall|s: int, r: int|
                in_table(final(self).table(), s, r) ==> (#[trigger] record_at(
                    final(self).table(),
                    s,
                    r,
                )).observed() <= final(self).decided(),
    {
        proof {
            use_type_invariant(&*self);
        }
        let ghost before = self.table.samples@;
        let ghost setting = self.setting();
        let mut queries: Vec<Query> = Vec::new();
        std::mem::swap(&mut self.pending, &mut queries);
        let count = queries.len();
        self.decided = self.decided + count as u64;
        proof {
            assert forall|s: int, r: int| in_table(before, s, r) implies (#[trigger] record_at(
                before,
                s,
                r,
            )).observed() + queries@.len() <= u64::MAX by {}
        }
        apply_outcomes(&mut self.table, &queries, outcomes);
        proof {
            use_type_invariant(&*self);
            assert(self.setting() == setting);
        }
    }

    /// The sample of the counter table that the variant-file column
    /// `column` stands for; none where the column is not configured or
    /// its sample is not in the table.
    pub fn resolve_column(&self, column: &String) -> (out: Option<usize>)
        ensures
            same_slot(out, self.setting().resolve(column@)),
    {
        proof {
            use_type_invariant(self);
        }
        match find_entry(&self.samples, column) {
            Some(k) => self.sample_route[k],
            None => None,
        }
    }

    /// The verdicts counted so far.
    pub fn counts(&self) -> (out: Tally)
        ensures
            out == self.tally(),
    {
        self.tally
    }

    /// The questions waiting for an answer.
    pub fn queries(&self) -> (out: &Vec<Query>)
        ensures
            out@ == self.pending(),
    {
        &self.pending
    }

    /// The number of questions settled so far.
    pub fn settled(&self) -> (out: u64)
        ensures
            out == self.decided(),
    {
        self.decided
    }

    /// The counter table as it stands.
    pub fn counters(&self) -> (out: &SamplePnPs)
        ensures
            out.samples@ == self.table(),
    {
        &self.table
    }

    /// The annotations of the pass.
    pub fn annotations(&self) -> (out: &AnnotationIndex)
        ensures
            out.annotations() == self.setting().annotations,
    {
        &self.index
    }

    /// Ends the pass and hands out the counter table and the tally.
    pub fn finish(self) -> (out: (SamplePnPs, Tally))
        ensures
            out.0.samples@ == self.table(),
            out.1 == self.tally(),
    {
        (self.table, self.tally)
    }
}

/// Every question that a record raises names a place of the table.
pub proof fn lemma_planned_aim(setting: Setting, record: VariantRecord)
    requires
        setting.wf(),
        record.calls@.len() <= usize::MAX,
    ensures
        forall|i: int|
            0 <= i < setting.planned(record).len() ==> {
                let q = #[trigger] setting.planned(record)[i];
                &&& q.sample < setting.uids.len()
                &&& q.slot < setting.uids[q.sample as int].len()
                &&& q.annotation < setting.annotations.len()
                &&& q.call < record.calls@.len()
            },
{
    if setting.planned(record).len() > 0 {
        let q = setting.planned(record)[0];
        if setting.admits(record) {
            let hits = setting.hits(record);
            lemma_covering_members(
                setting.annotations,
                record.chrom@,
                record.pos,
                setting.annotations.len(),
            );
            lemma_hit_queries_aim(setting, record.calls@, hits, hits.len());
        }
    }
}

/// Every question raised in a run of annotations names a place of the
/// table, an annotation and a call.
pub proof fn lemma_hit_queries_aim(
    setting: Setting,
    calls: Seq<SampleCall>,
    hits: Seq<usize>,
    m: nat,
)
    requires
        m <= hits.len(),
        calls.len() <= usize::MAX,
        setting.wf(),
        forall|k: int| 0 <= k < hits.len() ==> (#[trigger] hits[k]) < setting.annotations.len(),
    ensures
        forall|i: int|
            0 <= i < setting.hit_queries(calls, hits, m).len() ==> {
                let q = #[trigger] setting.hit_queries(calls, hits, m)[i];
                &&& q.sample < setting.uids.len()
                &&& q.slot < setting.uids[q.sample as int].len()
                &&& q.annotation < setting.annotations.len()
                &&& q.call < calls.len()
            },
    decreases m,
{
    if m > 0 {
        lemma_hit_queries_aim(setting, calls, hits, (m - 1) as nat);
        lemma_call_queries_bound(setting, calls, hits[m - 1], 0, 0, calls.len());
        let before = setting.hit_queries(calls, hits, (m - 1) as nat);
        let added = setting.call_queries(calls, hits[m - 1], calls.len());
        assert forall|i: int| 0 <= i < (before + added).len() implies {
            let q = #[trigger] (before + added)[i];
            &&& q.sample < setting.uids.len()
            &&& q.slot < setting.uids[q.sample as int].len()
            &&& q.annotation < setting.annotations.len()
            &&& q.call < calls.len()
        } by {
            if i < before.len() {
                assert((before + added)[i] == before[i]);
            } else {
                assert((before + added)[i] == added[i - before.len()]);
            }
        }
    }
}

/// Where no record brings more than one call for a sample in an
/// annotation, the calls brought for the sample in the annotation are no
/// more than the records that lie inside the annotation and bring a call
/// for the sample.
pub proof fn lemma_evidence_within_witnesses(
    setting: Setting,
    history: Seq<VariantRecord>,
    s: int,
    uid: u128,
)
    requires
        setting.single_calls(history, s, uid),
    ensures
        setting.evidence(history, s, uid) <= setting.witnesses(history, s, uid),
    decreases history.len(),
{
    if history.len() > 0 {
        assert forall|i: int| 0 <= i < history.drop_last().len() implies setting.support(
            #[trigger] history.drop_last()[i],
            s,
            uid,
        ) <= 1 by {
            assert(history.drop_last()[i] == history[i]);
        }
        lemma_evidence_within_witnesses(setting, history.drop_last(), s, uid);
        assert(history.last() == history[history.len() - 1]);
    }
}

/// At every moment of a pass, the substitutions counted for a sample in an
/// annotation are no more than the calls that the records offered so far
/// bring for that sample inside that annotation.
pub proof fn lemma_observed_within_evidence(classifier: &Classifier, s: int, r: int)
    requires
        classifier.wf(),
        in_table(classifier.table(), s, r),
    ensures
        record_at(classifier.table(), s, r).observed() <= classifier.setting().evidence(
            classifier.history(),
            s,
            record_at(classifier.table(), s, r).uid,
        ),
{
}

/// At every moment of a pass over records that bring at most one call for
/// a sample in an annotation, `syn + nonsyn` of the sample in the
/// annotation is no more than the number of records offered so far whose
/// position lies inside the annotation and which bring a call for the
/// sample.
pub proof fn lemma_observed_within_records(classifier: &Classifier, s: int, r: int)
    requires
        classifier.wf(),
        in_table(classifier.table(), s, r),
        classifier.setting().single_calls(
            classifier.history(),
            s,
            record_at(classifier.table(), s, r).uid,
        ),
    ensures
        record_at(classifier.table(), s, r).syn + record_at(classifier.table(), s, r).nonsyn
            <= classifier.setting().witnesses(
            classifier.history(),
            s,
            record_at(classifier.table(), s, r).uid,
        ),
{
    lemma_observed_within_evidence(classifier, s, r);
    lemma_evidence_within_witnesses(
        classifier.setting(),
        classifier.history(),
        s,
        record_at(classifier.table(), s, r).uid,
    );
}

/// A record that the filters skip raises no question, so that settling
/// after it changes no counter.
pub proof fn lemma_skipped_raises_nothing(setting: Setting, record: VariantRecord)
    requires
        screen(record, setting.min_depth, setting.min_qual) != Verdict::Accepted,
    ensures
        setting.planned(record) == Seq::<Query>::empty(),
        forall|s: int, uid: u128| #[trigger] setting.support(record, s, uid) == 0,
{
}

/// At every moment of a pass the skipped records are no more than the
/// records seen, and no record holds more substitutions than questions
/// were settled: none of the counters has wrapped.
pub proof fn lemma_counts_bounded(classifier: &Classifier)
    requires
        classifier.wf(),
    ensures
        classifier.tally().low_depth + classifier.tally().low_qual + classifier.tally().indel
            <= classifier.tally().total,
        forall|s: int, r: int|
            in_table(classifier.table(), s, r) ==> (#[trigger] record_at(
                classifier.table(),
                s,
                r,
            )).observed() <= classifier.decided(),
{
}

} // verus!

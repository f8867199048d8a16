//! Annotations and the index that finds those covering a position.

use vstd::prelude::*;
use crate::lookup::{lemma_index_meaning, lemma_push_distinct, same_slot};
use crate::places::{
    code_of_text, code_of_uid, lemma_candidate_is_first, lemma_no_candidate, lemma_positions,
    positions_of, text_code, text_codes, uid_code, uid_codes, Places,
};

verus! {

/// The strand on which a feature lies.
#[derive(Clone, Copy, Debug, PartialEq, Eq, Structural)]
pub enum Strand {
    Forward,
    Reverse,
}

/// One annotated feature: the half-open interval `[start, end)` on the
/// reference sequence `seq_id`.
#[derive(Clone, Debug, PartialEq, Eq)]
pub struct Annotation {
    pub uid: u128,
    pub seq_id: String,
    pub start: u64,
    pub end: u64,
    pub strand: Strand,
    pub feature_type: String,
}

/// The feature kind of coding sequences.
pub open spec fn coding_kind() -> Seq<char> {
    seq!['C', 'D', 'S']
}

impl Annotation {
    /// `pos` lies in `[start, end)`.
    pub open spec fn spec_contains(&self, pos: u64) -> bool {
        self.start <= pos < self.end
    }

    /// Whether `pos` lies inside the annotation's interval.
    #[verifier::when_used_as_spec(spec_contains)]
    pub fn contains(&self, pos: u64) -> (out: bool)
        ensures
            out == self.spec_contains(pos),
    {
        self.start <= pos && pos < self.end
    }

    /// The annotation lies on `chrom` and its interval contains `pos`.
    pub open spec fn covers(&self, chrom: Seq<char>, pos: u64) -> bool {
        self.seq_id@ == chrom && self.spec_contains(pos)
    }

    /// The annotation is a coding sequence.
    pub open spec fn spec_is_coding(&self) -> bool {
        self.feature_type@ == coding_kind()
    }

    /// Whether the annotation is a coding sequence.
    #[verifier::when_used_as_spec(spec_is_coding)]
    pub fn is_coding(&self) -> (out: bool)
        ensures
            out == self.spec_is_coding(),
    {
        let kind = self.feature_type.as_str();
        if kind.unicode_len() != 3 {
            return false;
        }
        let out = kind.get_char(0) == 'C' && kind.get_char(1) == 'D' && kind.get_char(2) == 'S';
        assert(out ==> self.feature_type@ =~= coding_kind());
        out
    }

    /// A copy of the annotation.
    pub fn duplicate(&self) -> (out: Self)
        ensures
            out == *self,
    {
        Annotation {
            uid: self.uid,
            seq_id: self.seq_id.clone(),
            start: self.start,
            end: self.end,
            strand: self.strand,
            feature_type: self.feature_type.clone(),
        }
    }
}

/// The UIDs of `annotations`, position by position.
pub open spec fn annotation_uids(annotations: Seq<Annotation>) -> Seq<u128> {
    annotations.map_values(|a: Annotation| a.uid)
}

/// `list` after `a` was filed in it: in the place of the first annotation
/// with the same UID, or at the end when there is none.
pub open spec fn filed(list: Seq<Annotation>, a: Annotation) -> Seq<Annotation> {
    match annotation_uids(list).index_of_first(a.uid) {
        Some(i) => list.update(i, a),
        None => list.push(a),
    }
}

/// The coding sequences among the first `n` of `input`, one per UID: a later
/// annotation takes the place of an earlier one with the same UID.
pub open spec fn coding_set(input: Seq<Annotation>, n: nat) -> Seq<Annotation>
    decreases n,
{
    if n == 0 {
        Seq::empty()
    } else {
        let before = coding_set(input, (n - 1) as nat);
        if input[n - 1].spec_is_coding() {
            filed(before, input[n - 1])
        } else {
            before
        }
    }
}

/// Finds the first annotation that carries `uid`, looking only at the
/// annotations that `places` files under the UID's code.
fn find_annotation(annotations: &Vec<Annotation>, places: &Places, uid: u128) -> (found:
    Option<usize>)
    requires
        places.wf(),
        places.codes() == uid_codes(annotation_uids(annotations@)),
    ensures
        same_slot(found, annotation_uids(annotations@).index_of_first(uid)),
        found matches Some(i) ==> i < annotations@.len() && annotations@[i as int].uid == uid,
{
    let candidates = places.candidates(code_of_uid(uid));
    let ghost keys = annotation_uids(annotations@);
    let ghost codes = places.codes();
    proof {
        assert(annotations.len() == annotations@.len());
        lemma_positions(codes, uid_code(uid), codes.len());
    }
    let mut j: usize = 0;
    while j < candidates.len()
        invariant
            j <= candidates@.len(),
            keys == annotation_uids(annotations@),
            codes == uid_codes(keys),
            keys.len() <= usize::MAX,
            candidates@ == positions_of(codes, uid_code(uid), codes.len()),
            forall|k: int| 0 <= k < candidates@.len() ==> (#[trigger] candidates@[k]) < keys.len(),
            forall|k: int| 0 <= k < j ==> keys[(#[trigger] candidates@[k]) as int] != uid,
        decreases candidates.len() - j,
    {
        let i = candidates[j];
        if annotations[i].uid == uid {
            proof {
                lemma_candidate_is_first(keys, codes, uid, uid_code(uid), j as int);
            }
            return Some(i);
        }
        j += 1;
    }
    proof {
        lemma_no_candidate(keys, codes, uid, uid_code(uid));
    }
    None
}

/// Keeps the coding sequences of `input`, one per UID.
pub fn coding_annotations(input: &Vec<Annotation>) -> (out: Vec<Annotation>)
    ensures
        out@ == coding_set(input@, input@.len()),
        annotation_uids(out@).no_duplicates(),
{
    let mut out: Vec<Annotation> = Vec::new();
    let mut places = Places::new();
    let mut i: usize = 0;
    assert(uid_codes(annotation_uids(out@)) =~= Seq::<u64>::empty());
    while i < input.len()
        invariant
            i <= input.len(),
            out@ == coding_set(input@, i as nat),
            annotation_uids(out@).no_duplicates(),
            places.wf(),
            places.codes() == uid_codes(annotation_uids(out@)),
        decreases input.len() - i,
    {
        if input[i].is_coding() {
            let a = input[i].duplicate();
            let ghost before = out@;
            proof {
                lemma_index_meaning(annotation_uids(before), a.uid);
            }
            match find_annotation(&out, &places, a.uid) {
                Some(k) => {
                    out.set(k, a);
                    assert(annotation_uids(out@) =~= annotation_uids(before));
                },
                None => {
                    proof {
                        lemma_push_distinct(annotation_uids(before), a.uid);
                    }
                    let code = code_of_uid(a.uid);
                    out.push(a);
                    proof {
                        assert(out.len() == out@.len());
                    }
                    places.push(code);
                    proof {
                        assert(annotation_uids(out@) =~= annotation_uids(before).push(a.uid));
                        assert(uid_codes(annotation_uids(out@)) =~= uid_codes(
                            annotation_uids(before),
                        ).push(code));
                    }
                },
            }
        }
        i += 1;
    }
    out
}

/// Whether no UID occurs twice among `annotations`.
pub fn has_distinct_uids(annotations: &Vec<Annotation>) -> (out: bool)
    ensures
        out == annotation_uids(annotations@).no_duplicates(),
{
    let ghost uids = annotation_uids(annotations@);
    let mut places = Places::new();
    let mut i: usize = 0;
    assert(uid_codes(uids.take(0)) =~= Seq::<u64>::empty());
    while i < annotations.len()
        invariant
            i <= annotations.len(),
            uids == annotation_uids(annotations@),
            places.wf(),
            places.codes() == uid_codes(uids.take(i as int)),
            uids.take(i as int).no_duplicates(),
        decreases annotations.len() - i,
    {
        let uid = annotations[i].uid;
        let ghost keys = uids.take(i as int);
        let ghost codes = places.codes();
        let candidates = places.candidates(code_of_uid(uid));
        proof {
            lemma_positions(codes, uid_code(uid), codes.len());
        }
        let mut j: usize = 0;
        while j < candidates.len()
            invariant
                j <= candidates@.len(),
                i < annotations.len(),
                uids == annotation_uids(annotations@),
                keys == uids.take(i as int),
                uid == uids[i as int],
                candidates@ == positions_of(codes, uid_code(uid), codes.len()),
                forall|k: int| 0 <= k < candidates@.len() ==> (#[trigger] candidates@[k]) < i,
                forall|k: int| 0 <= k < j ==> keys[(#[trigger] candidates@[k]) as int] != uid,
            decreases candidates.len() - j,
        {
            let c = candidates[j];
            if annotations[c].uid == uid {
                assert(uids[c as int] == uids[i as int]);
                return false;
            }
            j += 1;
        }
        proof {
            lemma_no_candidate(keys, codes, uid, uid_code(uid));
            lemma_push_distinct(keys, uid);
            assert(uids.take(i + 1) =~= keys.push(uid));
            assert(uid_codes(uids.take(i + 1)) =~= uid_codes(keys).push(uid_code(uid)));
        }
        places.push(code_of_uid(uid));
        i += 1;
    }
    assert(uids.take(annotations@.len() as int) =~= uids);
    true
}

/// The positions below `n` whose annotation lies on `chrom`, in rising order.
pub open spec fn on_sequence(annotations: Seq<Annotation>, chrom: Seq<char>, n: nat) -> Seq<usize>
    decreases n,
{
    if n == 0 {
        Seq::empty()
    } else {
        let before = on_sequence(annotations, chrom, (n - 1) as nat);
        if annotations[n - 1].seq_id@ == chrom {
            before.push((n - 1) as usize)
        } else {
            before
        }
    }
}

/// The positions below `n` whose annotation covers `pos` on `chrom`, in
/// rising order.
pub open spec fn covering(annotations: Seq<Annotation>, chrom: Seq<char>, pos: u64, n: nat) -> Seq<
    usize,
>
    decreases n,
{
    if n == 0 {
        Seq::empty()
    } else {
        let before = covering(annotations, chrom, pos, (n - 1) as nat);
        if annotations[n - 1].covers(chrom, pos) {
            before.push((n - 1) as usize)
        } else {
            before
        }
    }
}

/// Those of the first `m` of `members` whose annotation contains `pos`.
pub open spec fn containing(annotations: Seq<Annotation>, members: Seq<usize>, pos: u64, m: nat) -> Seq<
    usize,
>
    decreases m,
{
    if m == 0 {
        Seq::empty()
    } else {
        let before = containing(annotations, members, pos, (m - 1) as nat);
        if annotations[members[m - 1] as int].spec_contains(pos) {
            before.push(members[m - 1])
        } else {
            before
        }
    }
}

/// `containing` reads only the members that it is asked about.
pub proof fn lemma_containing_prefix(
    annotations: Seq<Annotation>,
    a: Seq<usize>,
    b: Seq<usize>,
    pos: u64,
    m: nat,
)
    requires
        m <= a.len(),
        m <= b.len(),
        forall|i: int| 0 <= i < m ==> a[i] == b[i],
    ensures
        containing(annotations, a, pos, m) == containing(annotations, b, pos, m),
    decreases m,
{
    if m > 0 {
        lemma_containing_prefix(annotations, a, b, pos, (m - 1) as nat);
    }
}

/// Every position that `covering` lists is below `n`, covers `pos`, and no
/// position is listed twice.
pub proof fn lemma_covering_members(
    annotations: Seq<Annotation>,
    chrom: Seq<char>,
    pos: u64,
    n: nat,
)
    requires
        n <= annotations.len(),
        n <= usize::MAX,
    ensures
        covering(annotations, chrom, pos, n).len() <= n,
        forall|k: int|
            0 <= k < covering(annotations, chrom, pos, n).len() ==> {
                &&& (#[trigger] covering(annotations, chrom, pos, n)[k]) < n
                &&& annotations[covering(annotations, chrom, pos, n)[k] as int].covers(chrom, pos)
            },
        forall|k: int, l: int|
            0 <= k < l < covering(annotations, chrom, pos, n).len() ==> covering(
                annotations,
                chrom,
                pos,
                n,
            )[k] < covering(annotations, chrom, pos, n)[l],
        forall|a: int|
            0 <= a < n && annotations[a].covers(chrom, pos) ==> covering(
                annotations,
                chrom,
                pos,
                n,
            ).contains(a as usize),
    decreases n,
{
    if n > 0 {
        lemma_covering_members(annotations, chrom, pos, (n - 1) as nat);
        let before = covering(annotations, chrom, pos, (n - 1) as nat);
        let now = covering(annotations, chrom, pos, n);
        assert forall|a: int| 0 <= a < n && annotations[a].covers(chrom, pos) implies now.contains(
            a as usize,
        ) by {
            if a < n - 1 {
                assert(before.contains(a as usize));
                let k = choose|k: int| 0 <= k < before.len() && before[k] == a as usize;
                assert(now[k] == a as usize);
            } else {
                assert(now[now.len() - 1] == a as usize);
            }
        }
    }
}

/// Sifting the annotations of one sequence by position gives the ones that
/// cover the position.
pub proof fn lemma_containing_is_covering(
    annotations: Seq<Annotation>,
    chrom: Seq<char>,
    pos: u64,
    n: nat,
)
    requires
        n <= annotations.len(),
        n <= usize::MAX,
    ensures
        on_sequence(annotations, chrom, n).len() <= n,
        forall|k: int|
            0 <= k < on_sequence(annotations, chrom, n).len() ==> (#[trigger] on_sequence(
                annotations,
                chrom,
                n,
            )[k]) < n,
        containing(
            annotations,
            on_sequence(annotations, chrom, n),
            pos,
            on_sequence(annotations, chrom, n).len(),
        ) == covering(annotations, chrom, pos, n),
    decreases n,
{
    if n > 0 {
        lemma_containing_is_covering(annotations, chrom, pos, (n - 1) as nat);
        let before = on_sequence(annotations, chrom, (n - 1) as nat);
        let now = on_sequence(annotations, chrom, n);
        if annotations[n - 1].seq_id@ == chrom {
            lemma_containing_prefix(annotations, before, now, pos, before.len());
        }
    }
}

/// The annotations of one reference sequence, by position in the index.
#[derive(Clone, Debug, PartialEq, Eq)]
pub struct SeqGroup {
    pub seq_id: String,
    pub members: Vec<usize>,
}

/// The reference-sequence ids of `groups`, position by position.
pub open spec fn group_ids(groups: Seq<SeqGroup>) -> Seq<Seq<char>> {
    groups.map_values(|g: SeqGroup| g.seq_id@)
}

/// Annotations grouped by the reference sequence on which they lie.
pub struct AnnotationIndex {
    annotations: Vec<Annotation>,
    groups: Vec<SeqGroup>,
    places: Places,
}

/// `groups` lists, for every reference sequence named by one of the first
/// `n` annotations, the positions below `n` that lie on it.
pub open spec fn groups_cover(annotations: Seq<Annotation>, groups: Seq<SeqGroup>, n: nat) -> bool {
    &&& n <= annotations.len()
    &&& group_ids(groups).no_duplicates()
    &&& forall|g: int|
        0 <= g < groups.len() ==> (#[trigger] groups[g]).members@ == on_sequence(
            annotations,
            groups[g].seq_id@,
            n,
        )
    &&& forall|a: int|
        0 <= a < n ==> group_ids(groups).contains((#[trigger] annotations[a]).seq_id@)
}

/// Finds the group of the reference sequence `chrom`, looking only at the
/// groups that `places` files under the code of `chrom`.
fn find_group(groups: &Vec<SeqGroup>, places: &Places, chrom: &String) -> (found: Option<usize>)
    requires
        places.wf(),
        places.codes() == text_codes(group_ids(groups@)),
    ensures
        same_slot(found, group_ids(groups@).index_of_first(chrom@)),
        found matches Some(i) ==> i < groups@.len() && groups@[i as int].seq_id@ == chrom@,
        found is None ==> !group_ids(groups@).contains(chrom@),
{
    let candidates = places.candidates(code_of_text(chrom.as_str()));
    let ghost keys = group_ids(groups@);
    let ghost codes = places.codes();
    let ghost code = text_code(chrom@);
    proof {
        assert(groups.len() == groups@.len());
        lemma_positions(codes, code, codes.len());
    }
    let mut j: usize = 0;
    while j < candidates.len()
        invariant
            j <= candidates@.len(),
            keys == group_ids(groups@),
            codes == text_codes(keys),
            code == text_code(chrom@),
            keys.len() <= usize::MAX,
            candidates@ == positions_of(codes, code, codes.len()),
            forall|k: int| 0 <= k < candidates@.len() ==> (#[trigger] candidates@[k]) < keys.len(),
            forall|k: int| 0 <= k < j ==> keys[(#[trigger] candidates@[k]) as int] != chrom@,
        decreases candidates.len() - j,
    {
        let i = candidates[j];
        if groups[i].seq_id.eq(chrom) {
            proof {
                lemma_candidate_is_first(keys, codes, chrom@, code, j as int);
                assert(keys[i as int] == chrom@);
            }
            return Some(i);
        }
        j += 1;
    }
    proof {
        lemma_no_candidate(keys, codes, chrom@, code);
    }
    None
}

impl AnnotationIndex {
    /// The annotations that the index was built from.
    pub closed spec fn annotations(&self) -> Seq<Annotation> {
        self.annotations@
    }

    /// The invariant of the index: the groups are complete and no UID
    /// occurs twice.
    #[verifier::type_invariant]
    pub closed spec fn wf(&self) -> bool {
        &&& annotation_uids(self.annotations@).no_duplicates()
        &&& groups_cover(self.annotations@, self.groups@, self.annotations@.len())
        &&& self.places.wf()
        &&& self.places.codes() == text_codes(group_ids(self.groups@))
    }

    /// Groups `annotations` by reference sequence. There is no index of
    /// annotations among which a UID occurs twice.
    pub fn build(annotations: Vec<Annotation>) -> (out: Option<Self>)
        ensures
            out is Some <==> annotation_uids(annotations@).no_duplicates(),
            out matches Some(index) ==> index.wf() && index.annotations() == annotations@,
    {
        if !has_distinct_uids(&annotations) {
            return None;
        }
        let mut groups: Vec<SeqGroup> = Vec::new();
        let mut places = Places::new();
        let mut i: usize = 0;
        assert(text_codes(group_ids(groups@)) =~= Seq::<u64>::empty());
        while i < annotations.len()
            invariant
                i <= annotations.len(),
                groups_cover(annotations@, groups@, i as nat),
                places.wf(),
                places.codes() == text_codes(group_ids(groups@)),
            decreases annotations.len() - i,
        {
            let ghost before = groups@;
            match find_group(&groups, &places, &annotations[i].seq_id) {
                Some(g) => {
                    groups[g].members.push(i);
                    proof {
                        assert(group_ids(groups@) =~= group_ids(before));
                        assert forall|h: int| 0 <= h < groups@.len() implies (
                        #[trigger] groups@[h]).members@ == on_sequence(
                            annotations@,
                            groups@[h].seq_id@,
                            (i + 1) as nat,
                        ) by {
                            if h != g {
                                assert(groups@[h] == before[h]);
                                assert(group_ids(before)[h] != group_ids(before)[g as int]);
                            }
                        }
                        assert forall|a: int| 0 <= a < i + 1 implies group_ids(groups@).contains(
                            (#[trigger] annotations@[a]).seq_id@,
                        ) by {
                            if a == i {
                                assert(group_ids(groups@)[g as int] == annotations@[a].seq_id@);
                            }
                        }
                    }
                },
                None => {
                    let mut members: Vec<usize> = Vec::new();
                    members.push(i);
                    let seq_id = annotations[i].seq_id.clone();
                    proof {
                        lemma_absent_on_sequence(annotations@, seq_id@, before, i as nat);
                        lemma_push_distinct(group_ids(before), seq_id@);
                    }
                    let code = code_of_text(seq_id.as_str());
                    groups.push(SeqGroup { seq_id, members });
                    proof {
                        assert(groups.len() == groups@.len());
                    }
                    places.push(code);
                    proof {
                        assert(group_ids(groups@) =~= group_ids(before).push(seq_id@));
                        assert(text_codes(group_ids(groups@)) =~= text_codes(
                            group_ids(before),
                        ).push(code));
                        assert forall|h: int| 0 <= h < groups@.len() implies (
                        #[trigger] groups@[h]).members@ == on_sequence(
                            annotations@,
                            groups@[h].seq_id@,
                            (i + 1) as nat,
                        ) by {
                            if h < before.len() {
                                assert(groups@[h] == before[h]);
                                assert(group_ids(before)[h] != seq_id@);
                            } else {
                                assert(groups@[h].members@ =~= Seq::<usize>::empty().push(i));
                            }
                        }
                        assert forall|a: int| 0 <= a < i + 1 implies group_ids(groups@).contains(
                            (#[trigger] annotations@[a]).seq_id@,
                        ) by {
                            if a == i {
                                assert(group_ids(groups@)[before.len() as int]
                                    == annotations@[a].seq_id@);
                            } else {
                                assert(group_ids(before).contains(annotations@[a].seq_id@));
                                let k = choose|k: int|
                                    0 <= k < before.len() && group_ids(before)[k]
                                        == annotations@[a].seq_id@;
                                assert(group_ids(groups@)[k] == annotations@[a].seq_id@);
                            }
                        }
                    }
                },
            }
            i += 1;
        }
        Some(AnnotationIndex { annotations, groups, places })
    }

    /// In a well-formed index no UID occurs twice.
    pub proof fn lemma_distinct(&self)
        requires
            self.wf(),
        ensures
            annotation_uids(self.annotations()).no_duplicates(),
    {
    }

    /// Number of annotations in the index.
    pub fn len(&self) -> (out: usize)
        ensures
            out == self.annotations().len(),
    {
        self.annotations.len()
    }

    /// The annotation at position `i`.
    pub fn annotation(&self, i: usize) -> (out: &Annotation)
        requires
            i < self.annotations().len(),
        ensures
            *out == self.annotations()[i as int],
    {
        &self.annotations[i]
    }

    /// The positions of the annotations that cover `pos` on `chrom`, in
    /// rising order.
    pub fn covering(&self, chrom: &String, pos: u64) -> (out: Vec<usize>)
        ensures
            out@ == covering(self.annotations(), chrom@, pos, self.annotations().len()),
    {
        proof {
            use_type_invariant(self);
        }
        let mut out: Vec<usize> = Vec::new();
        let total = self.annotations.len();
        let ghost n = total as nat;
        proof {
            lemma_containing_is_covering(self.annotations@, chrom@, pos, n);
        }
        match find_group(&self.groups, &self.places, chrom) {
            Some(g) => {
                let members = &self.groups[g].members;
                let mut k: usize = 0;
                while k < members.len()
                    invariant
                        k <= members@.len(),
                        members@ == on_sequence(self.annotations@, chrom@, n),
                        n == self.annotations@.len(),
                        forall|j: int| 0 <= j < members@.len() ==> (#[trigger] members@[j]) < n,
                        out@ == containing(self.annotations@, members@, pos, k as nat),
                    decreases members.len() - k,
                {
                    let a = members[k];
                    if self.annotations[a].contains(pos) {
                        out.push(a);
                    }
                    k += 1;
                }
            },
            None => {
                proof {
                    lemma_unlisted_sequence(self.annotations@, chrom@, pos, n);
                }
            },
        }
        out
    }
}

/// A reference sequence that none of the first `n` annotations names has
/// none of them on it.
pub proof fn lemma_absent_on_sequence(
    annotations: Seq<Annotation>,
    chrom: Seq<char>,
    groups: Seq<SeqGroup>,
    n: nat,
)
    requires
        groups_cover(annotations, groups, n),
        !group_ids(groups).contains(chrom),
    ensures
        on_sequence(annotations, chrom, n) == Seq::<usize>::empty(),
    decreases n,
{
    lemma_none_on_sequence(annotations, chrom, n);
}

/// Where none of the first `n` annotations lies on `chrom`, `on_sequence`
/// is empty.
pub proof fn lemma_none_on_sequence(annotations: Seq<Annotation>, chrom: Seq<char>, n: nat)
    requires
        n <= annotations.len(),
        forall|a: int| 0 <= a < n ==> (#[trigger] annotations[a]).seq_id@ != chrom,
    ensures
        on_sequence(annotations, chrom, n) == Seq::<usize>::empty(),
    decreases n,
{
    if n > 0 {
        lemma_none_on_sequence(annotations, chrom, (n - 1) as nat);
    }
}

/// Where none of the first `n` annotations lies on `chrom`, none covers a
/// position on it.
pub proof fn lemma_unlisted_sequence(
    annotations: Seq<Annotation>,
    chrom: Seq<char>,
    pos: u64,
    n: nat,
)
    requires
        n <= annotations.len(),
        forall|a: int| 0 <= a < n ==> (#[trigger] annotations[a]).seq_id@ != chrom,
    ensures
        covering(annotations, chrom, pos, n) == Seq::<usize>::empty(),
    decreases n,
{
    if n > 0 {
        lemma_unlisted_sequence(annotations, chrom, pos, (n - 1) as nat);
    }
}

} // verus!

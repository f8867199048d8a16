//! The baseline: for every annotation, the expected numbers of synonymous
//! and nonsynonymous substitution opportunities.

use vstd::prelude::*;
use crate::annotation::{annotation_uids, Annotation};
use crate::record::{distinct_uids, uids_of, PnPsRecord};

verus! {

/// The expected opportunity counts of one annotation.
#[derive(Clone, Copy, Debug, PartialEq, Eq, Structural)]
pub struct Expected {
    pub exp_syn: u64,
    pub exp_nonsyn: u64,
}

/// Why no baseline can be built.
#[derive(Clone, Copy, Debug, PartialEq, Eq, Structural)]
pub enum BaselineError {
    /// The reference sequence of the annotation at this position is not
    /// among the sequences supplied.
    MissingSequence { annotation: usize },
}

/// The unobserved record of an annotation with the given expectations.
pub open spec fn baseline_record(annotation: Annotation, expected: Expected) -> PnPsRecord {
    PnPsRecord {
        uid: annotation.uid,
        exp_syn: expected.exp_syn,
        exp_nonsyn: expected.exp_nonsyn,
        syn: 0,
        nonsyn: 0,
        coverage: 0,
    }
}

/// The expectations handed in for annotation `i`: nothing where the list
/// is too short.
pub open spec fn expected_at(expected: Seq<Option<Expected>>, i: int) -> Option<Expected> {
    if 0 <= i < expected.len() {
        expected[i]
    } else {
        None
    }
}

/// The first position below `n` whose expectations are missing.
pub open spec fn first_missing(expected: Seq<Option<Expected>>, n: nat) -> Option<int>
    decreases n,
{
    if n == 0 {
        None
    } else {
        match first_missing(expected, (n - 1) as nat) {
            Some(i) => Some(i),
            None => if expected_at(expected, n - 1) is None {
                Some(n - 1)
            } else {
                None
            },
        }
    }
}

/// Builds the baseline. `expected[i]` holds the opportunity counts computed
/// for annotation `i` from its reference sequence, or nothing where that
/// sequence was not found; one missing sequence fails the whole baseline.
/// An annotation beyond the end of `expected` has nothing either.
pub fn prepare_annotations(annotations: &Vec<Annotation>, expected: &Vec<Option<Expected>>) -> (out:
    Result<Vec<PnPsRecord>, BaselineError>)
    ensures
        match out {
            Ok(records) => {
                &&& first_missing(expected@, annotations@.len()) is None
                &&& records@.len() == annotations@.len()
                &&& forall|i: int|
                    0 <= i < records@.len() ==> (#[trigger] records@[i]) == baseline_record(
                        annotations@[i],
                        expected_at(expected@, i)->0,
                    )
                &&& uids_of(records@) == annotation_uids(annotations@)
                &&& annotation_uids(annotations@).no_duplicates() ==> distinct_uids(records@)
            },
            Err(error) => {
                &&& first_missing(expected@, annotations@.len()) matches Some(i)
                &&& error == (BaselineError::MissingSequence { annotation: i as usize })
            },
        },
{
    let mut records: Vec<PnPsRecord> = Vec::new();
    let mut i: usize = 0;
    while i < annotations.len()
        invariant
            i <= annotations.len(),
            first_missing(expected@, i as nat) is None,
            records@.len() == i,
            forall|j: int|
                0 <= j < i ==> (#[trigger] records@[j]) == baseline_record(
                    annotations@[j],
                    expected_at(expected@, j)->0,
                ),
        decreases annotations.len() - i,
    {
        let given = if i < expected.len() {
            expected[i]
        } else {
            None
        };
        match given {
            Some(counts) => {
                records.push(PnPsRecord::new(annotations[i].uid, counts.exp_syn, counts.exp_nonsyn));
            },
            None => {
                proof {
                    lemma_first_missing_stays(expected@, (i + 1) as nat, annotations@.len());
                }
                return Err(BaselineError::MissingSequence { annotation: i });
            },
        }
        i += 1;
    }
    assert(uids_of(records@) =~= annotation_uids(annotations@));
    Ok(records)
}

/// Once a position is the first missing one, it stays so however far one
/// looks.
pub proof fn lemma_first_missing_stays(expected: Seq<Option<Expected>>, n: nat, m: nat)
    requires
        n <= m,
        first_missing(expected, n) is Some,
    ensures
        first_missing(expected, m) == first_missing(expected, n),
    decreases m - n,
{
    if n < m {
        lemma_first_missing_stays(expected, n, (m - 1) as nat);
    }
}

} // verus!

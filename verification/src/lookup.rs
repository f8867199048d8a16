//! Facts about the first position of a key in a sequence of keys.

use vstd::prelude::*;

verus! {

/// `found` is the position that `slot` names.
pub open spec fn same_slot(found: Option<usize>, slot: Option<int>) -> bool {
    match found {
        Some(i) => slot == Some(i as int),
        None => slot is None,
    }
}

/// A position that holds `key` with no earlier one that does is the first.
pub proof fn lemma_first_index<A>(keys: Seq<A>, key: A, i: int)
    requires
        0 <= i < keys.len(),
        keys[i] == key,
        forall|j: int| 0 <= j < i ==> keys[j] != key,
    ensures
        keys.index_of_first(key) == Some(i),
{
    keys.index_of_first_ensures(key);
    assert(keys.contains(key));
}

/// Where no position holds `key` there is no first one.
pub proof fn lemma_no_index<A>(keys: Seq<A>, key: A)
    requires
        forall|j: int| 0 <= j < keys.len() ==> keys[j] != key,
    ensures
        keys.index_of_first(key) is None,
{
    keys.index_of_first_ensures(key);
}

/// What `index_of_first` returns, spelled out.
pub proof fn lemma_index_meaning<A>(keys: Seq<A>, key: A)
    ensures
        match keys.index_of_first(key) {
            Some(i) => 0 <= i < keys.len() && keys[i] == key && forall|j: int|
                0 <= j < i ==> keys[j] != key,
            None => forall|j: int| 0 <= j < keys.len() ==> keys[j] != key,
        },
{
    keys.index_of_first_ensures(key);
    if keys.index_of_first(key) is None {
        assert forall|j: int| 0 <= j < keys.len() implies keys[j] != key by {
            if keys[j] == key {
                assert(keys.contains(key));
            }
        }
    }
}

/// Appending a key that does not occur yet keeps a sequence free of
/// repetitions.
pub proof fn lemma_push_distinct<A>(keys: Seq<A>, key: A)
    requires
        keys.no_duplicates(),
        forall|j: int| 0 <= j < keys.len() ==> keys[j] != key,
    ensures
        keys.push(key).no_duplicates(),
{
}

} // verus!

//! Positions by code: a table that finds, among the positions of a list,
//! those whose key has a given code, without going through the list.
//!
//! A code is a number computed from a key; equal keys have equal codes.
//! The table is filled position after position with the codes of a list's
//! keys. To find a key, only the positions with the key's code are looked
//! at.

use vstd::prelude::*;
use std::collections::HashMap;

verus! {

/// Two to the power 64.
pub const CODE_RANGE: u128 = 0x1_0000_0000_0000_0000;

/// The positions below `n` that carry the code `code`, in rising order.
pub open spec fn positions_of(codes: Seq<u64>, code: u64, n: nat) -> Seq<usize>
    decreases n,
{
    if n == 0 {
        Seq::empty()
    } else {
        let before = positions_of(codes, code, (n - 1) as nat);
        if codes[n - 1] == code {
            before.push((n - 1) as usize)
        } else {
            before
        }
    }
}

/// `positions_of` reads only the codes that it is asked about.
pub proof fn lemma_positions_prefix(a: Seq<u64>, b: Seq<u64>, code: u64, n: nat)
    requires
        n <= a.len(),
        n <= b.len(),
        forall|i: int| 0 <= i < n ==> a[i] == b[i],
    ensures
        positions_of(a, code, n) == positions_of(b, code, n),
    decreases n,
{
    if n > 0 {
        lemma_positions_prefix(a, b, code, (n - 1) as nat);
    }
}

/// The positions listed carry the code, rise, and are all there are.
pub proof fn lemma_positions(codes: Seq<u64>, code: u64, n: nat)
    requires
        n <= codes.len(),
        n <= usize::MAX,
    ensures
        positions_of(codes, code, n).len() <= n,
        forall|k: int|
            0 <= k < positions_of(codes, code, n).len() ==> (#[trigger] positions_of(
                codes,
                code,
                n,
            )[k]) < n && codes[positions_of(codes, code, n)[k] as int] == code,
        forall|k: int, l: int|
            0 <= k < l < positions_of(codes, code, n).len() ==> positions_of(codes, code, n)[k]
                < positions_of(codes, code, n)[l],
        forall|i: int|
            0 <= i < n && codes[i] == code ==> positions_of(codes, code, n).contains(i as usize),
    decreases n,
{
    if n > 0 {
        lemma_positions(codes, code, (n - 1) as nat);
        let before = positions_of(codes, code, (n - 1) as nat);
        let now = positions_of(codes, code, n);
        assert forall|i: int| 0 <= i < n && codes[i] == code implies now.contains(i as usize) by {
            if i < n - 1 {
                assert(before.contains(i as usize));
                let k = choose|k: int| 0 <= k < before.len() && before[k] == i as usize;
                assert(now[k] == i as usize);
            } else {
                assert(now[now.len() - 1] == i as usize);
            }
        }
    }
}

/// Among the positions with the key's code, the first that holds the key
/// is the first position of the key in the whole list.
pub proof fn lemma_candidate_is_first<K>(keys: Seq<K>, codes: Seq<u64>, key: K, code: u64, j: int)
    requires
        keys.len() == codes.len(),
        keys.len() <= usize::MAX,
        forall|i: int| 0 <= i < keys.len() && keys[i] == key ==> codes[i] == code,
        0 <= j < positions_of(codes, code, codes.len()).len(),
        keys[positions_of(codes, code, codes.len())[j] as int] == key,
        forall|k: int| 0 <= k < j ==> keys[positions_of(codes, code, codes.len())[k] as int] != key,
    ensures
        positions_of(codes, code, codes.len())[j] < keys.len(),
        keys.index_of_first(key) == Some(positions_of(codes, code, codes.len())[j] as int),
{
    let places = positions_of(codes, code, codes.len());
    let found = places[j] as int;
    lemma_positions(codes, code, codes.len());
    assert forall|i: int| 0 <= i < found implies keys[i] != key by {
        if keys[i] == key {
            assert(codes[i] == code);
            assert(places.contains(i as usize));
            let k = choose|k: int| 0 <= k < places.len() && places[k] == i as usize;
            if k >= j {
                if k > j {
                    assert(places[j] < places[k]);
                }
            }
        }
    }
    crate::lookup::lemma_first_index(keys, key, found);
}

/// Where none of the positions with the key's code holds the key, the
/// list does not hold it.
pub proof fn lemma_no_candidate<K>(keys: Seq<K>, codes: Seq<u64>, key: K, code: u64)
    requires
        keys.len() == codes.len(),
        keys.len() <= usize::MAX,
        forall|i: int| 0 <= i < keys.len() && keys[i] == key ==> codes[i] == code,
        forall|k: int|
            0 <= k < positions_of(codes, code, codes.len()).len() ==> keys[positions_of(
                codes,
                code,
                codes.len(),
            )[k] as int] != key,
    ensures
        keys.index_of_first(key) is None,
        !keys.contains(key),
{
    let places = positions_of(codes, code, codes.len());
    lemma_positions(codes, code, codes.len());
    assert forall|i: int| 0 <= i < keys.len() implies keys[i] != key by {
        if keys[i] == key {
            assert(codes[i] == code);
            assert(places.contains(i as usize));
            let k = choose|k: int| 0 <= k < places.len() && places[k] == i as usize;
            assert(keys[places[k] as int] != key);
        }
    }
    crate::lookup::lemma_no_index(keys, key);
}

/// The positions of a list, by the code of the key at each.
pub struct Places {
    buckets: HashMap<u64, Vec<usize>>,
    count: usize,
    none: Vec<usize>,
    codes: Ghost<Seq<u64>>,
}

impl Places {
    /// The codes filed so far, position by position.
    pub closed spec fn codes(&self) -> Seq<u64> {
        self.codes@
    }

    /// Every code is filed with exactly its positions.
    pub closed spec fn wf(&self) -> bool {
        &&& self.none@.len() == 0
        &&& self.count == self.codes@.len()
        &&& forall|code: u64| #[trigger]
            positions_of(self.codes@, code, self.codes@.len()) == if self.buckets@.contains_key(
                code,
            ) {
                self.buckets@[code]@
            } else {
                Seq::empty()
            }
    }

    /// A table in which nothing is filed.
    pub fn new() -> (out: Self)
        ensures
            out.wf(),
            out.codes() == Seq::<u64>::empty(),
    {
        Places { buckets: HashMap::new(), count: 0, none: Vec::new(), codes: Ghost(Seq::empty()) }
    }

    /// Files the next position under `code`.
    pub fn push(&mut self, code: u64)
        requires
            old(self).wf(),
            old(self).codes().len() < usize::MAX,
        ensures
            final(self).wf(),
            final(self).codes() == old(self).codes().push(code),
    {
        let ghost before = self.codes@;
        let ghost after = before.push(code);
        let ghost was = self.buckets@;
        let place = self.count;
        let mut bucket: Vec<usize> = match self.buckets.remove(&code) {
            Some(bucket) => bucket,
            None => Vec::new(),
        };
        proof {
            assert(bucket@ == positions_of(before, code, before.len()));
        }
        bucket.push(place);
        self.buckets.insert(code, bucket);
        self.count = place + 1;
        self.codes = Ghost(after);
        proof {
            assert forall|other: u64| #[trigger]
                positions_of(after, other, after.len()) == if self.buckets@.contains_key(other) {
                    self.buckets@[other]@
                } else {
                    Seq::empty()
                } by {
                lemma_positions_prefix(after, before, other, before.len());
                if other != code {
                    assert(self.buckets@.contains_key(other) == was.contains_key(other));
                    if was.contains_key(other) {
                        assert(self.buckets@[other] == was[other]);
                    }
                }
            }
        }
    }

    /// The positions filed under `code`, in rising order.
    pub fn candidates(&self, code: u64) -> (out: &Vec<usize>)
        requires
            self.wf(),
        ensures
            out@ == positions_of(self.codes(), code, self.codes().len()),
    {
        match self.buckets.get(&code) {
            Some(bucket) => bucket,
            None => &self.none,
        }
    }
}

/// The code of a text.
pub open spec fn text_code(text: Seq<char>) -> u64
    decreases text.len(),
{
    if text.len() == 0 {
        0
    } else {
        ((text_code(text.drop_last()) as int * 31 + text.last() as u32 as int) % (
        CODE_RANGE as int)) as u64
    }
}

/// The code of a text.
pub fn code_of_text(text: &str) -> (out: u64)
    ensures
        out == text_code(text@),
{
    let mut code: u64 = 0;
    let ghost seen: Seq<char> = Seq::empty();
    for c in it: text.chars()
        invariant
            it.seq() == text@,
            code == text_code(it.seq().take(it.index() as int)),
    {
        proof {
            let grown = it.seq().take(it.index() + 1);
            assert(grown.drop_last() =~= it.seq().take(it.index() as int));
            assert(grown.last() == c);
        }
        let wide: u128 = (code as u128 * 31 + (c as u32) as u128) % CODE_RANGE;
        code = wide as u64;
    }
    proof {
        assert(text@.take(text@.len() as int) =~= text@);
    }
    code
}

/// The code of a UID.
pub open spec fn uid_code(uid: u128) -> u64 {
    ((uid / CODE_RANGE + uid % CODE_RANGE) % (CODE_RANGE as int)) as u64
}

/// The code of a UID.
pub fn code_of_uid(uid: u128) -> (out: u64)
    ensures
        out == uid_code(uid),
{
    let sum: u128 = uid / CODE_RANGE + uid % CODE_RANGE;
    (sum % CODE_RANGE) as u64
}

/// The codes of `texts`, position by position.
pub open spec fn text_codes(texts: Seq<Seq<char>>) -> Seq<u64> {
    texts.map_values(|t: Seq<char>| text_code(t))
}

/// The codes of `uids`, position by position.
pub open spec fn uid_codes(uids: Seq<u128>) -> Seq<u64> {
    uids.map_values(|u: u128| uid_code(u))
}

} // verus!

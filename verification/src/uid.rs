//! UIDs: 128-bit identifiers and their textual form.
//!
//! A UID is held as the 128-bit number whose big-endian bytes are the
//! identifier's sixteen bytes. Reading and writing the textual form is left
//! to the `uuid` crate.

use vstd::prelude::*;
use crate::text::digit;

verus! {

/// The error with which `uuid` refuses a text.
#[verifier::external_type_specification]
#[verifier::external_body]
pub struct ExUuidError(uuid::Error);

/// The UID that `uuid::Uuid::parse_str` reads from `text`, as a number;
/// `None` where it refuses the text.
pub uninterp spec fn uid_of_text(text: Seq<char>) -> Option<u128>;

/// The character that stands for the hexadecimal digit `d`, in lower case.
pub open spec fn hex_digit(d: nat) -> char {
    if d < 10 {
        digit(d)
    } else if d == 10 {
        'a'
    } else if d == 11 {
        'b'
    } else if d == 12 {
        'c'
    } else if d == 13 {
        'd'
    } else if d == 14 {
        'e'
    } else {
        'f'
    }
}

/// The last `n` hexadecimal digits of `v`, the most significant first.
pub open spec fn hex_digits(v: nat, n: nat) -> Seq<char>
    decreases n,
{
    if n == 0 {
        Seq::empty()
    } else {
        hex_digits(v / 16, (n - 1) as nat).push(hex_digit(v % 16))
    }
}

/// The textual form of a UID: its thirty-two hexadecimal digits in lower
/// case, in groups of 8, 4, 4, 4 and 12 with a hyphen between two groups.
pub open spec fn uid_text(uid: u128) -> Seq<char> {
    let d = hex_digits(uid as nat, 32);
    d.subrange(0, 8) + seq!['-'] + d.subrange(8, 12) + seq!['-'] + d.subrange(12, 16) + seq!['-']
        + d.subrange(16, 20) + seq!['-'] + d.subrange(20, 32)
}

/// Calls `uuid::Uuid::parse_str` on `text` and hands out the UID as a
/// number (`Uuid::as_u128`). The call succeeds on the texts, and with the
/// value, that `uid_of_text` names.
#[verifier::external_body]
fn parse_uuid(text: &str) -> (out: Result<u128, uuid::Error>)
    ensures
        out is Ok <==> uid_of_text(text@) is Some,
        out matches Ok(v) ==> uid_of_text(text@) == Some(v),
{
    match uuid::Uuid::parse_str(text) {
        Ok(value) => Ok(value.as_u128()),
        Err(error) => Err(error),
    }
}

/// Calls `to_string` on the `uuid::Uuid` made of `uid` by
/// `Uuid::from_u128`: the hyphenated form in lower case.
#[verifier::external_body]
fn format_uuid(uid: u128) -> (out: String)
    ensures
        out@ == uid_text(uid),
{
    uuid::Uuid::from_u128(uid).to_string()
}

/// Reads a UID from its textual form.
pub fn parse_uid(text: &str) -> (out: Option<u128>)
    ensures
        out == uid_of_text(text@),
{
    match parse_uuid(text) {
        Ok(value) => Some(value),
        Err(_) => None,
    }
}

/// The textual form of `uid`.
pub fn uid_string(uid: u128) -> (out: String)
    ensures
        out@ == uid_text(uid),
{
    format_uuid(uid)
}

/// `v` divided by sixteen, `n` times over.
pub open spec fn shifted(v: nat, n: nat) -> nat
    decreases n,
{
    if n == 0 {
        v
    } else {
        shifted(v / 16, (n - 1) as nat)
    }
}

/// Sixteen to the power `n`.
pub open spec fn sixteen_to(n: nat) -> nat
    decreases n,
{
    if n == 0 {
        1
    } else {
        16 * sixteen_to((n - 1) as nat)
    }
}

/// `hex_digits(v, n)` has `n` characters.
pub proof fn lemma_hex_digits_len(v: nat, n: nat)
    ensures
        hex_digits(v, n).len() == n,
    decreases n,
{
    if n > 0 {
        lemma_hex_digits_len(v / 16, (n - 1) as nat);
    }
}

/// A number below sixteen to the power `n` has nothing above its last `n`
/// hexadecimal digits.
pub proof fn lemma_shifted_small(v: nat, n: nat)
    requires
        v < sixteen_to(n),
    ensures
        shifted(v, n) == 0,
    decreases n,
{
    if n > 0 {
        lemma_shifted_small(v / 16, (n - 1) as nat);
    }
}

/// Two numbers with the same last `n` hexadecimal digits and the same
/// digits above those are the same number.
pub proof fn lemma_hex_digits_injective(v: nat, w: nat, n: nat)
    requires
        hex_digits(v, n) == hex_digits(w, n),
        shifted(v, n) == shifted(w, n),
    ensures
        v == w,
    decreases n,
{
    if n > 0 {
        let a = hex_digits(v / 16, (n - 1) as nat);
        let b = hex_digits(w / 16, (n - 1) as nat);
        assert(hex_digits(v, n).last() == hex_digit(v % 16));
        assert(hex_digits(w, n).last() == hex_digit(w % 16));
        assert(v % 16 == w % 16);
        assert(hex_digits(v, n).drop_last() =~= a);
        assert(hex_digits(w, n).drop_last() =~= b);
        lemma_hex_digits_injective(v / 16, w / 16, (n - 1) as nat);
    }
}

/// Sixteen to the power 32 is two to the power 128.
pub proof fn lemma_sixteen_to_32()
    ensures
        sixteen_to(32) == 0x1_0000_0000_0000_0000_0000_0000_0000_0000,
{
    reveal_with_fuel(sixteen_to, 9);
    assert(sixteen_to(8) == 0x1_0000_0000);
    assert(sixteen_to(16) == 0x1_0000_0000_0000_0000);
    assert(sixteen_to(24) == 0x1_0000_0000_0000_0000_0000_0000);
}

/// Different UIDs have different textual forms.
pub proof fn lemma_uid_text_injective(a: u128, b: u128)
    requires
        uid_text(a) == uid_text(b),
    ensures
        a == b,
{
    let da = hex_digits(a as nat, 32);
    let db = hex_digits(b as nat, 32);
    let ta = uid_text(a);
    let tb = uid_text(b);
    lemma_hex_digits_len(a as nat, 32);
    lemma_hex_digits_len(b as nat, 32);
    assert forall|k: int| 0 <= k < 32 implies da[k] == db[k] by {
        let p = if k < 8 {
            k
        } else if k < 12 {
            k + 1
        } else if k < 16 {
            k + 2
        } else if k < 20 {
            k + 3
        } else {
            k + 4
        };
        assert(ta[p] == da[k]);
        assert(tb[p] == db[k]);
    }
    assert(da =~= db);
    lemma_sixteen_to_32();
    lemma_shifted_small(a as nat, 32);
    lemma_shifted_small(b as nat, 32);
    lemma_hex_digits_injective(a as nat, b as nat, 32);
}

} // verus!

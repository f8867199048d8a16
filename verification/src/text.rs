//! Character-level helpers shared by the line parsers.

use vstd::prelude::*;
use crate::lookup::{lemma_first_index, lemma_no_index, same_slot};
use crate::places::{
    code_of_text, lemma_candidate_is_first, lemma_no_candidate, lemma_positions, positions_of,
    text_code, text_codes, Places,
};

verus! {

/// `String::push` appends exactly one character to the end of the string.
pub assume_specification[ String::push ](s: &mut String, ch: char)
    ensures
        final(s)@ == old(s)@.push(ch),
;

/// The characters of `s`, in order.
pub fn chars_of(s: &str) -> (out: Vec<char>)
    ensures
        out@ == s@,
{
    let mut out: Vec<char> = Vec::new();
    for c in it: s.chars()
        invariant
            out@ == it.seq().take(it.index() as int),
            it.seq() == s@,
    {
        out.push(c);
    }
    out
}

/// The string made of `chars[from..to]`.
pub fn string_of(chars: &Vec<char>, from: usize, to: usize) -> (out: String)
    requires
        from <= to <= chars.len(),
    ensures
        out@ == chars@.subrange(from as int, to as int),
{
    let mut out = String::new();
    let mut i: usize = from;
    while i < to
        invariant
            from <= i <= to <= chars.len(),
            out@ == chars@.subrange(from as int, i as int),
        decreases to - i,
    {
        out.push(chars[i]);
        assert(chars@.subrange(from as int, i + 1) =~= chars@.subrange(from as int, i as int).push(chars@[i as int]));
        i += 1;
    }
    assert(chars@.subrange(from as int, to as int) =~= chars@.subrange(from as int, i as int));
    out
}

/// The contents of `names`, position by position.
pub open spec fn names_of(names: Seq<String>) -> Seq<Seq<char>> {
    names.map_values(|s: String| s@)
}

/// Files `names` by code.
pub fn index_names(names: &Vec<String>) -> (out: Places)
    ensures
        out.wf(),
        out.codes() == text_codes(names_of(names@)),
{
    let mut places = Places::new();
    let ghost codes = text_codes(names_of(names@));
    let mut i: usize = 0;
    assert(codes.take(0) =~= Seq::<u64>::empty());
    while i < names.len()
        invariant
            i <= names.len(),
            codes == text_codes(names_of(names@)),
            places.wf(),
            places.codes() == codes.take(i as int),
        decreases names.len() - i,
    {
        places.push(code_of_text(names[i].as_str()));
        assert(codes.take(i + 1) =~= codes.take(i as int).push(text_code(names@[i as int]@)));
        i += 1;
    }
    assert(codes.take(names@.len() as int) =~= codes);
    places
}

/// Finds the first of `names` that is `name`, looking only at the names
/// that `places` files under the name's code.
pub fn find_name(names: &Vec<String>, places: &Places, name: &String) -> (found: Option<
    usize,
>)
    requires
        places.wf(),
        places.codes() == text_codes(names_of(names@)),
    ensures
        same_slot(found, names_of(names@).index_of_first(name@)),
        found is Some <==> names_of(names@).contains(name@),
        found matches Some(i) ==> i < names@.len() && names@[i as int]@ == name@,
{
    let candidates = places.candidates(code_of_text(name.as_str()));
    let ghost keys = names_of(names@);
    let ghost codes = places.codes();
    let ghost code = text_code(name@);
    proof {
        assert(names.len() == names@.len());
        lemma_positions(codes, code, codes.len());
    }
    let mut j: usize = 0;
    while j < candidates.len()
        invariant
            j <= candidates@.len(),
            keys == names_of(names@),
            codes == text_codes(keys),
            code == text_code(name@),
            keys.len() <= usize::MAX,
            candidates@ == positions_of(codes, code, codes.len()),
            forall|k: int| 0 <= k < candidates@.len() ==> (#[trigger] candidates@[k]) < keys.len(),
            forall|k: int| 0 <= k < j ==> keys[(#[trigger] candidates@[k]) as int] != name@,
        decreases candidates.len() - j,
    {
        let i = candidates[j];
        if names[i].eq(name) {
            proof {
                lemma_candidate_is_first(keys, codes, name@, code, j as int);
                assert(keys[i as int] == name@);
            }
            return Some(i);
        }
        j += 1;
    }
    proof {
        lemma_no_candidate(keys, codes, name@, code);
    }
    None
}

/// `c` is white space: one of the code points that carry the Unicode
/// property White_Space.
pub open spec fn spec_is_space(c: char) -> bool {
    let n = c as u32;
    ||| 0x09 <= n <= 0x0d
    ||| n == 0x20
    ||| n == 0x85
    ||| n == 0xa0
    ||| n == 0x1680
    ||| 0x2000 <= n <= 0x200a
    ||| n == 0x2028
    ||| n == 0x2029
    ||| n == 0x202f
    ||| n == 0x205f
    ||| n == 0x3000
}

/// Whether `c` is white space.
#[verifier::when_used_as_spec(spec_is_space)]
pub fn is_space(c: char) -> (out: bool)
    ensures
        out == spec_is_space(c),
{
    let n = c as u32;
    (0x09 <= n && n <= 0x0d) || n == 0x20 || n == 0x85 || n == 0xa0 || n == 0x1680 || (0x2000 <= n
        && n <= 0x200a) || n == 0x2028 || n == 0x2029 || n == 0x202f || n == 0x205f || n == 0x3000
}

/// The first position at or after `i` that holds no white space, or the
/// length of `s`.
pub open spec fn lead_from(s: Seq<char>, i: int) -> int
    decreases s.len() - i,
{
    if 0 <= i < s.len() && spec_is_space(s[i]) {
        lead_from(s, i + 1)
    } else {
        i
    }
}

/// The end of `s[lo..j]` once the white space at its end is cut off.
pub open spec fn trail_to(s: Seq<char>, lo: int, j: int) -> int
    decreases j,
{
    if 0 <= lo < j <= s.len() && spec_is_space(s[j - 1]) {
        trail_to(s, lo, j - 1)
    } else {
        j
    }
}

/// Where `s` without the white space at its ends begins.
pub open spec fn trim_start(s: Seq<char>) -> int {
    lead_from(s, 0)
}

/// Where `s` without the white space at its ends stops.
pub open spec fn trim_end(s: Seq<char>) -> int {
    trail_to(s, trim_start(s), s.len() as int)
}

/// `s` without the white space at its ends.
pub open spec fn trimmed(s: Seq<char>) -> Seq<char> {
    s.subrange(trim_start(s), trim_end(s))
}

/// The bounds of `chars` without the white space at its ends.
pub fn trim_bounds(chars: &Vec<char>) -> (out: (usize, usize))
    ensures
        out.0 == trim_start(chars@),
        out.1 == trim_end(chars@),
        out.0 <= out.1 <= chars@.len(),
{
    let mut i: usize = 0;
    while i < chars.len() && is_space(chars[i])
        invariant
            i <= chars@.len(),
            lead_from(chars@, 0) == lead_from(chars@, i as int),
        decreases chars.len() - i,
    {
        i += 1;
    }
    let mut j: usize = chars.len();
    while j > i && is_space(chars[j - 1])
        invariant
            i <= j <= chars@.len(),
            trail_to(chars@, i as int, chars@.len() as int) == trail_to(chars@, i as int, j as int),
        decreases j,
    {
        j -= 1;
    }
    (i, j)
}

/// The pieces of `s` between the occurrences of `sep`: one more than there
/// are occurrences.
pub open spec fn splits(s: Seq<char>, sep: char) -> Seq<Seq<char>>
    decreases s.len(),
{
    if s.len() == 0 {
        seq![Seq::empty()]
    } else {
        let before = splits(s.drop_last(), sep);
        if s.last() == sep {
            before.push(Seq::empty())
        } else {
            before.update(before.len() - 1, before.last().push(s.last()))
        }
    }
}

/// The pieces of `chars[from..to]` between the occurrences of `sep`.
pub fn split_fields(chars: &Vec<char>, from: usize, to: usize, sep: char) -> (out: Vec<String>)
    requires
        from <= to <= chars.len(),
    ensures
        names_of(out@) == splits(chars@.subrange(from as int, to as int), sep),
        out@.len() >= 1,
{
    let mut done: Vec<String> = Vec::new();
    let mut current = String::new();
    let mut i: usize = from;
    proof {
        assert(chars@.subrange(from as int, from as int) =~= Seq::<char>::empty());
        assert(names_of(done@).push(current@) =~= seq![Seq::<char>::empty()]);
    }
    while i < to
        invariant
            from <= i <= to <= chars.len(),
            names_of(done@).push(current@) == splits(chars@.subrange(from as int, i as int), sep),
        decreases to - i,
    {
        let ghost part = chars@.subrange(from as int, i as int);
        let ghost next = chars@.subrange(from as int, i + 1);
        let ghost pieces = names_of(done@).push(current@);
        proof {
            assert(next.drop_last() =~= part);
            assert(next.last() == chars@[i as int]);
        }
        let c = chars[i];
        if c == sep {
            done.push(current);
            current = String::new();
            proof {
                assert(names_of(done@) =~= pieces);
                assert(names_of(done@).push(current@) =~= pieces.push(Seq::empty()));
            }
        } else {
            current.push(c);
            proof {
                assert(names_of(done@).push(current@) =~= pieces.update(
                    pieces.len() - 1,
                    pieces.last().push(c),
                ));
            }
        }
        i += 1;
    }
    let ghost pieces = names_of(done@).push(current@);
    done.push(current);
    proof {
        assert(names_of(done@) =~= pieces);
    }
    done
}

/// The first position in `chars[from..to]` that holds `c`.
pub fn find_char(chars: &Vec<char>, from: usize, to: usize, c: char) -> (out: Option<usize>)
    requires
        from <= to <= chars.len(),
    ensures
        match out {
            Some(p) => chars@.subrange(from as int, to as int).index_of_first(c) == Some(
                p - from,
            ) && from <= p < to,
            None => chars@.subrange(from as int, to as int).index_of_first(c) is None,
        },
{
    let ghost part = chars@.subrange(from as int, to as int);
    let mut i: usize = from;
    while i < to
        invariant
            from <= i <= to <= chars.len(),
            part == chars@.subrange(from as int, to as int),
            forall|j: int| 0 <= j < i - from ==> part[j] != c,
        decreases to - i,
    {
        if chars[i] == c {
            proof {
                lemma_first_index(part, c, i - from);
            }
            return Some(i);
        }
        i += 1;
    }
    proof {
        lemma_no_index(part, c);
    }
    None
}

/// The character that stands for the digit `d`.
pub open spec fn digit(d: nat) -> char {
    if d == 0 {
        '0'
    } else if d == 1 {
        '1'
    } else if d == 2 {
        '2'
    } else if d == 3 {
        '3'
    } else if d == 4 {
        '4'
    } else if d == 5 {
        '5'
    } else if d == 6 {
        '6'
    } else if d == 7 {
        '7'
    } else if d == 8 {
        '8'
    } else {
        '9'
    }
}

/// `n` written in decimal, without leading zeros.
pub open spec fn decimal(n: nat) -> Seq<char>
    decreases n,
{
    if n < 10 {
        seq![digit(n)]
    } else {
        decimal(n / 10).push(digit(n % 10))
    }
}

/// The character that stands for the digit `d`.
fn digit_char(d: u64) -> (out: char)
    requires
        d < 10,
    ensures
        out == digit(d as nat),
{
    if d == 0 {
        '0'
    } else if d == 1 {
        '1'
    } else if d == 2 {
        '2'
    } else if d == 3 {
        '3'
    } else if d == 4 {
        '4'
    } else if d == 5 {
        '5'
    } else if d == 6 {
        '6'
    } else if d == 7 {
        '7'
    } else if d == 8 {
        '8'
    } else {
        '9'
    }
}

/// `n` written in decimal.
pub fn decimal_text(n: u64) -> (out: String)
    ensures
        out@ == decimal(n as nat),
    decreases n,
{
    if n < 10 {
        let mut out = String::new();
        out.push(digit_char(n));
        assert(out@ =~= seq![digit(n as nat)]);
        out
    } else {
        let mut out = decimal_text(n / 10);
        out.push(digit_char(n % 10));
        out
    }
}

/// The digit that `c` stands for, if it is a decimal digit.
pub open spec fn spec_digit_value(c: char) -> Option<u64> {
    let n = c as u32;
    if 0x30 <= n <= 0x39 {
        Some((n - 0x30) as u64)
    } else {
        None
    }
}

/// The digit that `c` stands for, if it is a decimal digit.
#[verifier::when_used_as_spec(spec_digit_value)]
pub fn digit_value(c: char) -> (out: Option<u64>)
    ensures
        out == spec_digit_value(c),
{
    let n = c as u32;
    if 0x30 <= n && n <= 0x39 {
        Some((n - 0x30) as u64)
    } else {
        None
    }
}

/// The number that the digits `s` spell; `None` where a character is no
/// digit. The empty sequence spells 0.
pub open spec fn digits_value(s: Seq<char>) -> Option<nat>
    decreases s.len(),
{
    if s.len() == 0 {
        Some(0)
    } else {
        match (digits_value(s.drop_last()), spec_digit_value(s.last())) {
            (Some(v), Some(d)) => Some(v * 10 + d as nat),
            _ => None,
        }
    }
}

/// The number that `s` spells as an unsigned 32-bit integer in decimal: an
/// optional plus sign, then one digit or more, the value within range.
pub open spec fn parsed_u32(s: Seq<char>) -> Option<u32> {
    let body = if s.len() > 0 && s[0] == '+' {
        s.subrange(1, s.len() as int)
    } else {
        s
    };
    if body.len() == 0 {
        None
    } else {
        match digits_value(body) {
            Some(v) => if v <= u32::MAX {
                Some(v as u32)
            } else {
                None
            },
            None => None,
        }
    }
}

/// A longer run of digits spells no smaller a number.
pub proof fn lemma_digits_grow(s: Seq<char>, k: int)
    requires
        0 <= k <= s.len(),
        digits_value(s) is Some,
    ensures
        digits_value(s.subrange(0, k)) is Some,
        digits_value(s.subrange(0, k))->0 <= digits_value(s)->0,
    decreases s.len() - k,
{
    if k == s.len() {
        assert(s.subrange(0, k) =~= s);
    } else {
        assert(s.drop_last().subrange(0, k) =~= s.subrange(0, k));
        lemma_digits_grow(s.drop_last(), k);
    }
}

/// Reads `chars[from..to]` as an unsigned 32-bit integer in decimal.
#[verifier::loop_isolation(false)]
pub fn parse_u32(chars: &Vec<char>, from: usize, to: usize) -> (out: Option<u32>)
    requires
        from <= to <= chars.len(),
    ensures
        out == parsed_u32(chars@.subrange(from as int, to as int)),
{
    let ghost s = chars@.subrange(from as int, to as int);
    let start: usize = if from < to && chars[from] == '+' {
        from + 1
    } else {
        from
    };
    let ghost body = chars@.subrange(start as int, to as int);
    proof {
        if start > from {
            assert(s[0] == '+');
            assert(body =~= s.subrange(1, s.len() as int));
        } else {
            assert(s.len() > 0 ==> s[0] == chars@[from as int]);
            assert(body =~= s);
        }
    }
    if start == to {
        return None;
    }
    let mut value: u64 = 0;
    let mut i: usize = start;
    proof {
        assert(body.subrange(0, 0) =~= Seq::<char>::empty());
    }
    while i < to
        invariant
            start <= i <= to <= chars.len(),
            body == chars@.subrange(start as int, to as int),
            digits_value(body.subrange(0, i - start)) == Some(value as nat),
            value <= u32::MAX,
        decreases to - i,
    {
        let ghost part = body.subrange(0, i - start);
        let ghost next = body.subrange(0, i + 1 - start);
        proof {
            assert(next.drop_last() =~= part);
            assert(next.last() == chars@[i as int]);
        }
        match digit_value(chars[i]) {
            Some(d) => {
                let grown: u64 = value * 10 + d;
                proof {
                    assert(digits_value(next) == Some(grown as nat));
                }
                if grown > 0xffff_ffff {
                    proof {
                        if digits_value(body) is Some {
                            lemma_digits_grow(body, i + 1 - start);
                        }
                    }
                    return None;
                }
                value = grown;
            },
            None => {
                proof {
                    assert(digits_value(next) is None);
                    if digits_value(body) is Some {
                        lemma_digits_grow(body, i + 1 - start);
                    }
                }
                return None;
            },
        }
        i += 1;
    }
    proof {
        assert(body.subrange(0, to - start) =~= body);
    }
    Some(value as u32)
}

/// A line that is empty or starts with `#` says nothing.
pub open spec fn is_comment(line: Seq<char>) -> bool {
    line.len() == 0 || line[0] == '#'
}

/// The two fields of a line of a map file: what stands before and after
/// the first tab, once the white space around the line is cut off. A
/// comment has none, nor has a line without a tab.
pub open spec fn line_fields(line: Seq<char>) -> Option<(Seq<char>, Seq<char>)> {
    if is_comment(line) {
        None
    } else {
        let t = trimmed(line);
        match t.index_of_first('\t') {
            Some(p) => Some((t.subrange(0, p), t.subrange(p + 1, t.len() as int))),
            None => None,
        }
    }
}

/// Splits a line of a map file into its two fields.
pub fn split_line(line: &String) -> (out: Option<(String, String)>)
    ensures
        match out {
            Some((key, rest)) => line_fields(line@) == Some((key@, rest@)),
            None => line_fields(line@) is None,
        },
{
    let chars = chars_of(line.as_str());
    if chars.len() == 0 || chars[0] == '#' {
        return None;
    }
    let (from, to) = trim_bounds(&chars);
    let ghost t = trimmed(chars@);
    match find_char(&chars, from, to, '\t') {
        Some(p) => {
            let key = string_of(&chars, from, p);
            let rest = string_of(&chars, p + 1, to);
            proof {
                assert(key@ =~= t.subrange(0, p - from));
                assert(rest@ =~= t.subrange(p - from + 1, t.len() as int));
            }
            Some((key, rest))
        },
        None => None,
    }
}

} // verus!

//! The resolver's choice step: reading a numbered option from one line of
//! interactive input.
//!
//! A conflict is presented with its owning packs numbered 1 through N in
//! pack order. A line of input denotes option `v - 1` exactly when, with
//! surrounding ASCII whitespace trimmed, it is a string of decimal digits
//! whose value `v` lies in `1 ..= N`. Anything else — empty, non-numeric,
//! zero, out of range — denotes nothing, and the caller prompts again; an
//! invalid line is never accepted or defaulted.

use vstd::prelude::*;
use crate::bytes::copy_vec;
use crate::classify::{Conflict, Resolution};

verus! {

/// An ASCII whitespace byte: space, tab, line feed or carriage return.
pub open spec fn is_space(b: u8) -> bool {
    b == 32 || b == 9 || b == 10 || b == 13
}

/// An ASCII decimal digit.
pub open spec fn is_digit(b: u8) -> bool {
    48 <= b <= 57
}

/// Every byte of the string is a decimal digit.
pub open spec fn all_digits(s: Seq<u8>) -> bool {
    forall|x: int| 0 <= x < s.len() ==> is_digit(#[trigger] s[x])
}

/// The numeric value of a string of decimal digits, most significant first.
pub open spec fn dec_value(s: Seq<u8>) -> int
    decreases s.len(),
{
    if s.len() == 0 {
        0
    } else {
        dec_value(s.drop_last()) * 10 + (s.last() as int - 48)
    }
}

/// The string with leading ASCII whitespace removed.
pub open spec fn trim_front(s: Seq<u8>) -> Seq<u8>
    decreases s.len(),
{
    if s.len() > 0 && is_space(s.first()) {
        trim_front(s.drop_first())
    } else {
        s
    }
}

/// The string with trailing ASCII whitespace removed.
pub open spec fn trim_back(s: Seq<u8>) -> Seq<u8>
    decreases s.len(),
{
    if s.len() > 0 && is_space(s.last()) {
        trim_back(s.drop_last())
    } else {
        s
    }
}

/// The string with whitespace removed at both ends.
pub open spec fn trimmed(s: Seq<u8>) -> Seq<u8> {
    trim_back(trim_front(s))
}

/// The option an input line denotes among `n` numbered ones: the trimmed
/// line read as a decimal value `v` with `1 <= v <= n` denotes option
/// `v - 1`; any other line denotes nothing.
pub open spec fn choice_of_line(line: Seq<u8>, n: int) -> Option<int> {
    let t = trimmed(line);
    if t.len() > 0 && all_digits(t) && 1 <= dec_value(t) <= n {
        Some(dec_value(t) - 1)
    } else {
        None
    }
}

/// Whether one byte is ASCII whitespace.
fn space_byte(b: u8) -> (r: bool)
    ensures
        r == is_space(b),
{
    b == 32 || b == 9 || b == 10 || b == 13
}

/// Whether one byte is an ASCII decimal digit.
fn digit_byte(b: u8) -> (r: bool)
    ensures
        r == is_digit(b),
{
    48 <= b && b <= 57
}

/// When everything before `a` is whitespace and `a` is not, the front-trim
/// is the tail from `a` on.
proof fn lemma_trim_front_at(s: Seq<u8>, a: int)
    requires
        0 <= a <= s.len(),
        forall|x: int| 0 <= x < a ==> is_space(#[trigger] s[x]),
        a < s.len() ==> !is_space(s[a]),
    ensures
        trim_front(s) == s.subrange(a, s.len() as int),
    decreases a,
{
    if a == 0 {
        assert(s.subrange(0, s.len() as int) =~= s);
    } else {
        let s2 = s.drop_first();
        assert(forall|x: int| 0 <= x < a - 1 ==> is_space(#[trigger] s2[x]));
        lemma_trim_front_at(s2, a - 1);
        assert(s2.subrange(a - 1, s2.len() as int) =~= s.subrange(a, s.len() as int));
    }
}

/// When everything after `b` is whitespace and `b` is not, the back-trim is
/// the head through `b`.
proof fn lemma_trim_back_at(s: Seq<u8>, b: int)
    requires
        -1 <= b < s.len(),
        forall|x: int| b < x < s.len() ==> is_space(#[trigger] s[x]),
        b >= 0 ==> !is_space(s[b]),
    ensures
        trim_back(s) == s.subrange(0, b + 1),
    decreases s.len(),
{
    if b == s.len() - 1 {
        assert(s.subrange(0, s.len() as int) =~= s);
    } else {
        let s2 = s.drop_last();
        lemma_trim_back_at(s2, b);
        assert(s2.subrange(0, b + 1) =~= s.subrange(0, b + 1));
    }
}

/// Parses one input line as a choice among `n` numbered options, as
/// `choice_of_line` says: whitespace is trimmed at both ends, the rest must
/// be decimal digits, and only values 1 through `n` are accepted, shifted to
/// a zero-based index.
pub fn parse_choice(line: &Vec<u8>, n: usize) -> (r: Option<usize>)
    ensures
        r is Some <==> choice_of_line(line@, n as int) is Some,
        r matches Some(k) ==> Some(k as int) == choice_of_line(line@, n as int) && k < n,
{
    let len = line.len();
    let mut first_ns: usize = len;
    let mut last_ns: usize = len;
    let mut x: usize = 0;
    while x < len
        invariant
            x <= len,
            len == line@.len(),
            first_ns <= len,
            (first_ns == len) <==> (forall|y: int| 0 <= y < x ==> is_space(#[trigger] line@[y])),
            first_ns < len ==> first_ns < x && !is_space(line@[first_ns as int]) && (forall|y: int|
                0 <= y < first_ns ==> is_space(#[trigger] line@[y])),
            first_ns == len ==> last_ns == len,
            first_ns < len ==> first_ns <= last_ns && last_ns < x && !is_space(
                line@[last_ns as int],
            ) && (forall|y: int| last_ns < y < x ==> is_space(#[trigger] line@[y])),
        decreases len - x,
    {
        if !space_byte(line[x]) {
            if first_ns == len {
                first_ns = x;
            }
            last_ns = x;
        }
        x += 1;
    }
    if first_ns == len {
        proof {
            lemma_trim_front_at(line@, len as int);
            assert(trim_front(line@).len() == 0);
            assert(trimmed(line@).len() == 0);
        }
        return None;
    }
    let a = first_ns;
    let b = last_ns;
    let ghost t = line@.subrange(a as int, b as int + 1);
    proof {
        lemma_trim_front_at(line@, a as int);
        let front = line@.subrange(a as int, len as int);
        lemma_trim_back_at(front, b as int - a as int);
        assert(front.subrange(0, b as int - a as int + 1) =~= t);
        assert(trimmed(line@) == t);
        assert(t.len() >= 1);
    }
    let mut value: u128 = 0;
    let mut c: usize = a;
    while c <= b
        invariant
            a <= c <= b + 1,
            a <= b < len,
            len == line@.len(),
            t == line@.subrange(a as int, b as int + 1),
            trimmed(line@) == t,
            all_digits(t.take(c as int - a as int)),
            value <= n as u128 ==> value as int == dec_value(t.take(c as int - a as int)),
            value > n as u128 ==> dec_value(t.take(c as int - a as int)) > n as int,
        decreases b + 1 - c,
    {
        let d = line[c];
        proof {
            assert(t[c as int - a as int] == line@[c as int]);
        }
        if !digit_byte(d) {
            return None;
        }
        proof {
            let pre = t.take(c as int - a as int);
            let next = t.take(c as int - a as int + 1);
            assert(next.drop_last() =~= pre);
            assert(next.last() == t[c as int - a as int]);
            assert(dec_value(next) == dec_value(pre) * 10 + (d as int - 48));
            if value > n as u128 {
                assert(dec_value(pre) * 10 >= dec_value(pre));
            }
        }
        if value <= n as u128 {
            value = value * 10 + ((d - 48) as u128);
        }
        c += 1;
    }
    proof {
        assert(t.take(b as int + 1 - a as int) =~= t);
    }
    if 1 <= value && value <= n as u128 {
        let v = value as usize;
        Some(v - 1)
    } else {
        None
    }
}

/// One step of the resolver's prompting state machine for one conflict:
/// given the input line, either the resolution — the path with the chosen
/// owning pack as source — or nothing, in which case the caller shows the
/// prompt again. Looping this step until it yields re-prompts indefinitely
/// on invalid input, never accepting or defaulting.
pub fn resolve_conflict(conflict: &Conflict, line: &Vec<u8>) -> (r: Option<Resolution>)
    ensures
        r is Some <==> choice_of_line(line@, conflict.entries@.len() as int) is Some,
        r matches Some(res) ==> (choice_of_line(line@, conflict.entries@.len() as int) matches Some(
            k,
        ) && res.path@ == conflict.path@ && 0 <= k < conflict.entries@.len() && res.pack
            == conflict.entries@[k].pack),
{
    match parse_choice(line, conflict.entries.len()) {
        Some(k) => Some(
            Resolution { path: copy_vec(&conflict.path), pack: conflict.entries[k].pack },
        ),
        None => None,
    }
}

} // verus!

//! The bencode grammar, stated as a parser over byte sequences.
//!
//! `parse(s, pos)` is the value whose encoding starts at `pos` in `s`, with the
//! position just past its encoding, or `None` where no value starts there.
use vstd::prelude::*;
use crate::value::{Term, Tree};

verus! {

pub open spec fn is_digit(c: u8) -> bool {
    48 <= c <= 57
}

/// The first position at or after `i` that does not hold a decimal digit.
pub open spec fn digits_end(s: Seq<u8>, i: int) -> int
    decreases s.len() - i,
{
    if 0 <= i < s.len() && is_digit(s[i]) {
        digits_end(s, i + 1)
    } else {
        i
    }
}

pub proof fn lemma_digits_end(s: Seq<u8>, i: int)
    ensures
        digits_end(s, i) >= i,
        i >= 0 ==> digits_end(s, i) <= s.len() || digits_end(s, i) == i,
        forall|k: int| i <= k < digits_end(s, i) ==> is_digit(#[trigger] s[k]),
    decreases s.len() - i,
{
    if 0 <= i < s.len() && is_digit(s[i]) {
        lemma_digits_end(s, i + 1);
    }
}

/// The number that a run of decimal digits denotes.
pub open spec fn digits_value(d: Seq<u8>) -> int
    decreases d.len(),
{
    if d.len() == 0 {
        0
    } else {
        digits_value(d.drop_last()) * 10 + (d.last() - 48)
    }
}

pub proof fn lemma_digits_value_nonneg(d: Seq<u8>)
    requires
        forall|k: int| 0 <= k < d.len() ==> is_digit(#[trigger] d[k]),
    ensures
        digits_value(d) >= 0,
    decreases d.len(),
{
    if d.len() > 0 {
        lemma_digits_value_nonneg(d.drop_last());
    }
}

/// A non-empty run of digits with no superfluous leading zero.
pub open spec fn canonical_digits(d: Seq<u8>) -> bool {
    d.len() > 0 && (d[0] == 48 ==> d.len() == 1)
}

/// `i` [`-`] digits `e`, with canonical digits, no `-0`, within 64 bits.
pub open spec fn parse_integer(s: Seq<u8>, pos: int) -> Option<Tree> {
    let neg = pos + 1 < s.len() && s[pos + 1] == 45;
    let ds = if neg { pos + 2 } else { pos + 1 };
    let de = digits_end(s, ds);
    let d = s.subrange(ds, de);
    let v = if neg { -digits_value(d) } else { digits_value(d) };
    if 0 <= pos && ds <= s.len() && de < s.len() && s[de] == 101 && canonical_digits(d) && !(neg
        && d[0] == 48) && i64::MIN <= v <= i64::MAX {
        Some(Tree { term: Term::Int(v), start: pos, end: de + 1 })
    } else {
        None
    }
}

/// The length `n` in canonical digits, `:`, then `n` raw bytes.
pub open spec fn parse_string(s: Seq<u8>, pos: int) -> Option<Tree> {
    let de = digits_end(s, pos);
    let d = s.subrange(pos, de);
    let n = digits_value(d);
    if 0 <= pos && de < s.len() && s[de] == 58 && canonical_digits(d) && de + 1 + n <= s.len() {
        Some(
            Tree {
                term: Term::Bytes(s.subrange(de + 1, de + 1 + n)),
                start: pos,
                end: de + 1 + n,
            },
        )
    } else {
        None
    }
}

/// The value whose encoding starts at `pos`.
pub open spec fn parse(s: Seq<u8>, pos: int) -> Option<Tree>
    decreases s.len() - pos, 0int,
{
    if !(0 <= pos < s.len()) {
        None
    } else if s[pos] == 105 {
        parse_integer(s, pos)
    } else if is_digit(s[pos]) {
        parse_string(s, pos)
    } else if s[pos] == 108 {
        match parse_items(s, pos + 1) {
            Some((items, end)) => Some(Tree { term: Term::List(items), start: pos, end }),
            None => None,
        }
    } else if s[pos] == 100 {
        match parse_entries(s, pos + 1) {
            Some((entries, end)) => Some(Tree { term: Term::Dict(entries), start: pos, end }),
            None => None,
        }
    } else {
        None
    }
}

/// The list elements from `p` up to and including the closing `e`, and the
/// position after it.
pub open spec fn parse_items(s: Seq<u8>, p: int) -> Option<(Seq<Tree>, int)>
    decreases s.len() - p, 1int,
{
    if !(0 <= p < s.len()) {
        None
    } else if s[p] == 101 {
        Some((Seq::empty(), p + 1))
    } else {
        match parse(s, p) {
            Some(t) => if p < t.end <= s.len() {
                match parse_items(s, t.end) {
                    Some((rest, e)) => Some((seq![t] + rest, e)),
                    None => None,
                }
            } else {
                None
            },
            None => None,
        }
    }
}

/// The dictionary entries from `p` up to and including the closing `e`, and
/// the position after it. A key must be a byte string.
pub open spec fn parse_entries(s: Seq<u8>, p: int) -> Option<(Seq<(Seq<u8>, Tree)>, int)>
    decreases s.len() - p, 1int,
{
    if !(0 <= p < s.len()) {
        None
    } else if s[p] == 101 {
        Some((Seq::empty(), p + 1))
    } else if !is_digit(s[p]) {
        None
    } else {
        match parse_string(s, p) {
            Some(k) => if p < k.end <= s.len() {
                match parse(s, k.end) {
                    Some(v) => if k.end < v.end <= s.len() {
                        match parse_entries(s, v.end) {
                            Some((rest, e)) => Some((seq![(key_bytes(k), v)] + rest, e)),
                            None => None,
                        }
                    } else {
                        None
                    },
                    None => None,
                }
            } else {
                None
            },
            None => None,
        }
    }
}

/// The bytes of a byte-string tree.
pub open spec fn key_bytes(t: Tree) -> Seq<u8> {
    match t.term {
        Term::Bytes(b) => b,
        _ => Seq::empty(),
    }
}

/// The value that the whole buffer encodes; trailing bytes are refused.
pub open spec fn decode_spec(s: Seq<u8>) -> Option<Tree> {
    match parse(s, 0) {
        Some(t) => if t.end == s.len() {
            Some(t)
        } else {
            None
        },
        None => None,
    }
}

} // verus!

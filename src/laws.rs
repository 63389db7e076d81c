//! Properties that relate the decoder, the info hash and the projection.
use vstd::prelude::*;
use vstd::utf8::{decode_utf8, valid_utf8};
use crate::grammar::{
    canonical_digits, decode_spec, digits_end, digits_value, is_digit, parse_entries,
    parse_integer, parse_string,
};
use crate::info_hash::info_hash_spec;
use crate::json::{
    binary_fallback, info_text, key_index, pieces_text, project, project_entries, project_items,
    strip_pieces_spec, without_key, JTerm,
};
use crate::value::{Term, Tree};

verus! {

/// The decimal digits of `n`, without leading zeros.
pub open spec fn decimal(n: nat) -> Seq<u8>
    decreases n,
{
    if n < 10 {
        seq![(48 + n) as u8]
    } else {
        decimal(n / 10).push((48 + n % 10) as u8)
    }
}

/// The bencode encoding of an integer.
pub open spec fn int_encoding(i: int) -> Seq<u8> {
    let digits = if i < 0 {
        seq![45u8] + decimal((-i) as nat)
    } else {
        decimal(i as nat)
    };
    seq![105u8] + digits + seq![101u8]
}

/// The bencode encoding of a byte string.
pub open spec fn string_encoding(b: Seq<u8>) -> Seq<u8> {
    decimal(b.len()) + seq![58u8] + b
}

proof fn lemma_decimal(n: nat)
    ensures
        decimal(n).len() >= 1,
        forall|k: int| 0 <= k < decimal(n).len() ==> is_digit(#[trigger] decimal(n)[k]),
        digits_value(decimal(n)) == n,
        decimal(n)[0] == 48 <==> n == 0,
        canonical_digits(decimal(n)),
    decreases n,
{
    if n >= 10 {
        lemma_decimal(n / 10);
        let d = decimal(n);
        assert(d.drop_last() =~= decimal(n / 10));
        assert(d[0] == decimal(n / 10)[0]);
        assert((n / 10) * 10 + n % 10 == n);
        assert(d.last() == (48 + n % 10) as u8);
        assert(((48 + n % 10) as u8) as int == 48 + n % 10);
        assert(digits_value(d) == digits_value(d.drop_last()) * 10 + (d.last() - 48));
    } else {
        assert(decimal(n).drop_last() =~= Seq::<u8>::empty());
        assert(((48 + n) as u8) as int == 48 + n);
        assert(digits_value(decimal(n)) == digits_value(decimal(n).drop_last()) * 10 + (
        decimal(n).last() - 48));
    }
}

/// A run of digits from `a` that stops at `b` ends there.
proof fn lemma_digits_end_at(s: Seq<u8>, a: int, b: int)
    requires
        0 <= a <= b <= s.len(),
        forall|k: int| a <= k < b ==> is_digit(#[trigger] s[k]),
        b < s.len() ==> !is_digit(s[b]),
    ensures
        digits_end(s, a) == b,
    decreases b - a,
{
    if a < b {
        lemma_digits_end_at(s, a + 1, b);
    }
}

/// Every 64-bit integer decodes from its encoding to itself, and the node
/// spans the whole encoding.
pub proof fn law_integer_round_trip(i: i64)
    ensures
        decode_spec(int_encoding(i as int)) == Some(
            Tree { term: Term::Int(i as int), start: 0, end: int_encoding(i as int).len() as int },
        ),
{
    let s = int_encoding(i as int);
    let m: nat = if i < 0 {
        (-i) as nat
    } else {
        i as nat
    };
    let d = decimal(m);
    lemma_decimal(m);
    let ds: int = if i < 0 {
        2
    } else {
        1
    };
    assert(s.subrange(ds, ds + d.len()) =~= d);
    assert forall|k: int| ds <= k < ds + d.len() implies is_digit(#[trigger] s[k]) by {
        assert(s[k] == d[k - ds]);
    }
    lemma_digits_end_at(s, ds, ds + d.len());
    assert(s[0] == 105);
    if i >= 0 {
        assert(s[1] == d[0]);
    }
    assert(parse_integer(s, 0) == Some(
        Tree { term: Term::Int(i as int), start: 0, end: s.len() as int },
    ));
}

/// Every byte string decodes from `<length>:<bytes>` to itself, and its node
/// spans the digits of the length, the colon and the bytes.
pub proof fn law_byte_string_round_trip(b: Seq<u8>)
    ensures
        decode_spec(string_encoding(b)) == Some(
            Tree {
                term: Term::Bytes(b),
                start: 0,
                end: (decimal(b.len()).len() + 1 + b.len()) as int,
            },
        ),
{
    let s = string_encoding(b);
    let d = decimal(b.len());
    lemma_decimal(b.len());
    assert(s.subrange(0, d.len() as int) =~= d);
    assert forall|k: int| 0 <= k < d.len() implies is_digit(#[trigger] s[k]) by {
        assert(s[k] == d[k]);
    }
    lemma_digits_end_at(s, 0, d.len() as int);
    assert(s.subrange(d.len() + 1int, s.len() as int) =~= b);
    assert(s[0] == d[0]);
    assert(parse_string(s, 0) == Some(
        Tree { term: Term::Bytes(b), start: 0, end: s.len() as int },
    ));
}

/// A dictionary whose first key is not a byte string (its first byte is
/// neither a digit nor the closing `e`) does not decode.
pub proof fn law_non_string_key_refused(s: Seq<u8>)
    requires
        s.len() >= 2,
        s[0] == 100,
        !is_digit(s[1]),
        s[1] != 101,
    ensures
        decode_spec(s) is None,
{
    assert(parse_entries(s, 1) is None);
}

/// Decoding and the info hash depend on the contents of the buffer alone:
/// equal buffers give equal trees and equal hashes.
pub proof fn law_decoding_is_deterministic(a: Seq<u8>, b: Seq<u8>)
    requires
        a == b,
    ensures
        decode_spec(a) == decode_spec(b),
        decode_spec(a) matches Some(t) ==> info_hash_spec(a, t) == info_hash_spec(b, t),
{
}

/// Every dictionary key in the tree is UTF-8 text.
pub open spec fn keys_utf8(t: Tree) -> bool
    decreases t,
{
    match t.term {
        Term::List(items) => items_keys_utf8(items),
        Term::Dict(es) => entries_keys_utf8(es),
        _ => true,
    }
}

pub open spec fn items_keys_utf8(items: Seq<Tree>) -> bool
    decreases items,
{
    items.len() == 0 || (items_keys_utf8(items.drop_last()) && keys_utf8(items.last()))
}

pub open spec fn entries_keys_utf8(es: Seq<(Seq<u8>, Tree)>) -> bool
    decreases es,
{
    es.len() == 0 || (entries_keys_utf8(es.drop_last()) && valid_utf8(es.last().0) && keys_utf8(
        es.last().1,
    ))
}

proof fn lemma_project_some(t: Tree)
    requires
        keys_utf8(t),
    ensures
        project(t) is Some,
    decreases t,
{
    match t.term {
        Term::List(items) => lemma_items_some(items),
        Term::Dict(es) => lemma_entries_some(es),
        _ => {},
    }
}

proof fn lemma_items_some(items: Seq<Tree>)
    requires
        items_keys_utf8(items),
    ensures
        project_items(items) is Some,
    decreases items,
{
    if items.len() > 0 {
        lemma_items_some(items.drop_last());
        lemma_project_some(items.last());
    }
}

proof fn lemma_entries_some(es: Seq<(Seq<u8>, Tree)>)
    requires
        entries_keys_utf8(es),
    ensures
        project_entries(es) is Some,
    decreases es,
{
    if es.len() > 0 {
        lemma_entries_some(es.drop_last());
        lemma_project_some(es.last().1);
    }
}

/// The projection fails only on a dictionary key that is not UTF-8: a byte
/// string value that is not UTF-8 becomes the binary fallback, wherever it
/// stands.
pub proof fn law_projection_fails_only_on_keys(t: Tree)
    requires
        keys_utf8(t),
    ensures
        project(t) is Some,
        t.term matches Term::Bytes(b) ==> project(t) == Some(
            if valid_utf8(b) {
                JTerm::Text(decode_utf8(b))
            } else {
                binary_fallback(b)
            },
        ),
{
    lemma_project_some(t);
}

proof fn lemma_no_key_left(obj: Seq<(Seq<char>, JTerm)>, k: Seq<char>)
    ensures
        key_index(without_key(obj, k), k) == -1,
    decreases obj.len(),
{
    if obj.len() > 0 {
        lemma_no_key_left(obj.drop_last(), k);
        let rest = without_key(obj.drop_last(), k);
        if obj.last().0 != k {
            assert(rest.push(obj.last()).drop_last() =~= rest);
        }
    }
}

proof fn lemma_key_index_keeps_keys(obj: Seq<(Seq<char>, JTerm)>, i: int, v: JTerm, k: Seq<char>)
    requires
        0 <= i < obj.len(),
    ensures
        key_index(obj.update(i, (obj[i].0, v)), k) == key_index(obj, k),
    decreases obj.len(),
{
    let u = obj.update(i, (obj[i].0, v));
    if i < obj.len() - 1 {
        assert(u.drop_last() =~= obj.drop_last().update(i, (obj[i].0, v)));
        lemma_key_index_keeps_keys(obj.drop_last(), i, v, k);
    } else {
        assert(u.drop_last() =~= obj.drop_last());
    }
}

/// After `pieces` is stripped, the object bound to `info` has no `pieces`
/// member.
pub proof fn law_no_pieces_under_info(j: JTerm)
    ensures
        strip_pieces_spec(j) matches JTerm::Obj(ps) ==> {
            let i = key_index(ps, info_text());
            i >= 0 && ps[i].1 is Obj ==> key_index(ps[i].1->Obj_0, pieces_text()) == -1
        },
{
    if let JTerm::Obj(ps) = j {
        let i = key_index(ps, info_text());
        crate::json::lemma_key_index_bounds(ps, info_text());
        if i >= 0 && ps[i].1 is Obj {
            let w = without_key(ps[i].1->Obj_0, pieces_text());
            lemma_key_index_keeps_keys(ps, i, JTerm::Obj(w), info_text());
            lemma_no_key_left(ps[i].1->Obj_0, pieces_text());
        }
    }
}

} // verus!

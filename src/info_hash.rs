//! The info hash: SHA-1 over the original bytes of the value bound to `info`.
use vstd::prelude::*;
use crate::error::Error;
use crate::decode::entries_of;
use crate::grammar::{digits_end, lemma_digits_end, lemma_digits_value_nonneg, decode_spec, parse, parse_entries, parse_integer, parse_string};
use crate::value::{Node, Term, Tree, Value};

verus! {

/// The lowercase hex SHA-1 digest of a byte sequence.
pub uninterp spec fn sha1_hex(data: Seq<u8>) -> Seq<char>;

pub open spec fn is_lower_hex(c: char) -> bool {
    ('0' <= c <= '9') || ('a' <= c <= 'f')
}

/// Relies on `sha1::Sha1` (sha1_smol): `digest()` is the SHA-1 digest of the
/// bytes given to `update`, and its `Display` writes the five 32-bit state
/// words as eight lowercase hex digits each.
#[verifier::external_body]
fn sha1_hex_digest(data: &[u8]) -> (r: String)
    ensures
        r@ == sha1_hex(data@),
        r@.len() == 40,
        forall|i: int| 0 <= i < 40 ==> is_lower_hex(#[trigger] r@[i]),
{
    let mut m = sha1::Sha1::new();
    m.update(data);
    m.digest().to_string()
}

/// The key `info`.
pub open spec fn info_key() -> Seq<u8> {
    seq![105u8, 110, 102, 111]
}

/// The index of the last entry whose key is `k`, or -1 where there is none.
pub open spec fn last_index_of(es: Seq<(Seq<u8>, Tree)>, k: Seq<u8>) -> int
    decreases es.len(),
{
    if es.len() == 0 {
        -1
    } else if es.last().0 == k {
        es.len() - 1
    } else {
        last_index_of(es.drop_last(), k)
    }
}

/// The value bound to `info` in a root dictionary (the last one, should the
/// key repeat).
pub open spec fn info_entry(root: Tree) -> Option<Tree> {
    match root.term {
        Term::Dict(es) => {
            let i = last_index_of(es, info_key());
            if i >= 0 {
                Some(es[i].1)
            } else {
                None
            }
        },
        _ => None,
    }
}

/// What the info hash of a decoded root is, for its buffer.
pub open spec fn info_hash_spec(buf: Seq<u8>, root: Tree) -> Option<Seq<char>> {
    match info_entry(root) {
        Some(v) => Some(sha1_hex(buf.subrange(v.start, v.end))),
        None => None,
    }
}

proof fn lemma_last_index_bounds(es: Seq<(Seq<u8>, Tree)>, k: Seq<u8>)
    ensures
        -1 <= last_index_of(es, k) < es.len(),
        last_index_of(es, k) >= 0 ==> es[last_index_of(es, k)].0 == k,
    decreases es.len(),
{
    if es.len() > 0 && es.last().0 != k {
        lemma_last_index_bounds(es.drop_last(), k);
    }
}

/// Every parsed node starts where it was asked for and ends inside the buffer.
proof fn lemma_parse_span(s: Seq<u8>, pos: int)
    requires
        parse(s, pos) is Some,
    ensures
        parse(s, pos).unwrap().start == pos,
        pos < parse(s, pos).unwrap().end <= s.len(),
    decreases s.len() - pos, 0int,
{
    reveal_with_fuel(parse, 1);
    if s[pos] == 105 {
        lemma_digits_end(s, pos + 1);
        lemma_digits_end(s, pos + 2);
        assert(parse_integer(s, pos) is Some);
    } else if 48 <= s[pos] <= 57 {
        lemma_digits_end(s, pos);
        lemma_digits_value_nonneg(s.subrange(pos, digits_end(s, pos)));
        assert(parse_string(s, pos) is Some);
    } else if s[pos] == 108 {
        lemma_items_end(s, pos + 1);
    } else {
        lemma_entries_spans(s, pos + 1);
    }
}

proof fn lemma_items_end(s: Seq<u8>, p: int)
    requires
        crate::grammar::parse_items(s, p) is Some,
    ensures
        p < crate::grammar::parse_items(s, p).unwrap().1 <= s.len(),
    decreases s.len() - p,
{
    if s[p] != 101 {
        let t = parse(s, p).unwrap();
        lemma_items_end(s, t.end);
    }
}

/// The values of parsed dictionary entries lie inside the buffer.
proof fn lemma_entries_spans(s: Seq<u8>, p: int)
    requires
        parse_entries(s, p) is Some,
    ensures
        p < parse_entries(s, p).unwrap().1 <= s.len(),
        forall|i: int|
            0 <= i < parse_entries(s, p).unwrap().0.len() ==> {
                let v = #[trigger] parse_entries(s, p).unwrap().0[i].1;
                0 <= v.start < v.end <= s.len()
            },
    decreases s.len() - p, 1int,
{
    if s[p] != 101 {
        let k = parse_string(s, p).unwrap();
        let v = parse(s, k.end).unwrap();
        lemma_parse_span(s, k.end);
        lemma_entries_spans(s, v.end);
        let es = parse_entries(s, p).unwrap().0;
        let rest = parse_entries(s, v.end).unwrap().0;
        assert forall|i: int| 0 <= i < es.len() implies {
            let w = #[trigger] es[i].1;
            0 <= w.start < w.end <= s.len()
        } by {
            if i > 0 {
                assert(es[i] == rest[i - 1]);
            }
        }
    }
}

/// Computes the info hash of a decoded buffer: the SHA-1 digest, in
/// lowercase hex, of the bytes that encode the value bound to `info`.
pub fn compute_info_hash(buf: &[u8], root: &Node) -> (r: Result<String, Error>)
    requires
        decode_spec(buf@) == Some(root@),
    ensures
        match info_hash_spec(buf@, root@) {
            Some(h) => r is Ok && r->Ok_0@ == h,
            None => r == Err::<String, Error>(Error::MissingInfoKey),
        },
{
    let entries = match &root.value {
        Value::Dictionary(entries) => entries,
        _ => {
            return Err(Error::MissingInfoKey);
        },
    };
    let ghost es = root@.term->Dict_0;
    proof {
        lemma_entries_spans(buf@, 1);
        assert(es == parse_entries(buf@, 1).unwrap().0);
        lemma_last_index_bounds(es, info_key());
        assert(es =~= entries_of(entries@));
        assert forall|j: int| 0 <= j < es.len() implies 0 <= (#[trigger] es[j]).1.start
            < es[j].1.end <= buf@.len() by {
            assert(es[j].1 == parse_entries(buf@, 1).unwrap().0[j].1);
        }
        assert(es.subrange(0, es.len() as int) =~= es);
    }
    let mut i: usize = entries.len();
    while i > 0
        invariant
            i <= entries@.len() == es.len(),
            root@.term is Dict,
            es == root@.term->Dict_0,
            es == entries_of(entries@),
            forall|j: int|
                0 <= j < es.len() ==> 0 <= (#[trigger] es[j]).1.start < es[j].1.end <= buf@.len(),
            last_index_of(es, info_key()) == last_index_of(es.subrange(0, i as int), info_key()),
        decreases i,
    {
        let key = &entries[i - 1].0;
        assert(es[i - 1].0 == key@);
        assert(es.subrange(0, i as int).drop_last() =~= es.subrange(0, i - 1));
        if key.len() == 4 && key[0] == 105 && key[1] == 110 && key[2] == 102 && key[3] == 111 {
            assert(key@ =~= info_key());
            let v = &entries[i - 1].1;
            assert(es[i - 1].1 == v@);
            assert(last_index_of(es, info_key()) == i - 1);
            let bytes = vstd::slice::slice_subrange(buf, v.start, v.end);
            return Ok(sha1_hex_digest(bytes));
        }
        assert(key@ != info_key());
        i = i - 1;
    }
    assert(es.subrange(0, 0) =~= Seq::<(Seq<u8>, Tree)>::empty());
    Err(Error::MissingInfoKey)
}

} // verus!

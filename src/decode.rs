//! The decoder: a recursive descent over the input buffer that records the
//! byte range of every node.
use vstd::prelude::*;
use crate::grammar::{
    decode_spec, digits_end, digits_value, is_digit, key_bytes, parse, parse_entries, parse_items,
    parse_string,
};
use crate::value::{Node, Term, Tree, Value};

verus! {

/// The input is not a bencode value; `offset` is where decoding stopped.
#[derive(Debug, Clone, Copy, PartialEq, Eq)]
pub struct DecodeError {
    pub offset: usize,
}

/// Reads the run of digits at `from`, with its value where that is at most `limit`.
fn read_digits(buf: &[u8], from: usize, limit: u64) -> (r: (usize, Option<u64>))
    requires
        from <= buf@.len(),
    ensures
        r.0 == digits_end(buf@, from as int),
        from <= r.0 <= buf@.len(),
        match r.1 {
            Some(v) => v as int == digits_value(buf@.subrange(from as int, r.0 as int)) && v
                <= limit,
            None => digits_value(buf@.subrange(from as int, r.0 as int)) > limit,
        },
{
    let mut i: usize = from;
    let mut acc: u64 = 0;
    let mut over = false;
    assert(buf@.subrange(from as int, from as int) =~= Seq::<u8>::empty());
    while i < buf.len() && 48 <= buf[i] && buf[i] <= 57
        invariant
            from <= i <= buf@.len(),
            digits_end(buf@, from as int) == digits_end(buf@, i as int),
            !over ==> acc as int == digits_value(buf@.subrange(from as int, i as int)) && acc
                <= limit,
            over ==> digits_value(buf@.subrange(from as int, i as int)) > limit,
        decreases buf@.len() - i,
    {
        let d = (buf[i] - 48) as u64;
        let ghost old_v = digits_value(buf@.subrange(from as int, i as int));
        assert(buf@.subrange(from as int, i + 1).drop_last() =~= buf@.subrange(
            from as int,
            i as int,
        ));
        assert(digits_value(buf@.subrange(from as int, i + 1)) == old_v * 10 + d);
        if !over {
            if d > limit || acc > (limit - d) / 10 {
                over = true;
                assert(old_v * 10 + d > limit) by (nonlinear_arith)
                    requires
                        old_v == acc,
                        acc >= 0,
                        d > limit || acc > (limit - d) / 10,
                        0 <= d <= 9,
                ;
            } else {
                assert(acc * 10 + d <= limit) by (nonlinear_arith)
                    requires
                        acc <= (limit - d) / 10,
                        d <= limit,
                        acc >= 0,
                ;
                acc = acc * 10 + d;
            }
        } else {
            assert(old_v * 10 + d > limit) by (nonlinear_arith)
                requires
                    old_v > limit,
                    limit >= 0,
                    d >= 0,
            ;
        }
        i = i + 1;
    }
    if over {
        (i, None)
    } else {
        (i, Some(acc))
    }
}

fn decode_integer(buf: &[u8], pos: usize) -> (r: Result<Node, DecodeError>)
    requires
        pos < buf@.len(),
        buf@[pos as int] == 105,
    ensures
        match r {
            Ok(n) => parse(buf@, pos as int) == Some(n@) && pos < n.end <= buf@.len(),
            Err(e) => parse(buf@, pos as int) is None && e.offset <= buf@.len(),
        },
{
    let neg = buf.len() - pos > 1 && buf[pos + 1] == 45;
    let ds = if neg {
        pos + 2
    } else {
        pos + 1
    };
    let limit: u64 = if neg {
        0x8000_0000_0000_0000
    } else {
        0x7fff_ffff_ffff_ffff
    };
    let (de, v) = read_digits(buf, ds, limit);
    if de >= buf.len() || buf[de] != 101 {
        return Err(DecodeError { offset: de });
    }
    if de == ds || (buf[ds] == 48 && (de - ds > 1 || neg)) {
        return Err(DecodeError { offset: ds });
    }
    match v {
        None => Err(DecodeError { offset: ds }),
        Some(m) => {
            let n: i64 = if !neg {
                m as i64
            } else if m == 0x8000_0000_0000_0000 {
                i64::MIN
            } else {
                -(m as i64)
            };
            let node = Node { value: Value::Integer(n), start: pos, end: de + 1 };
            assert(node@.term == Term::Int(n as int));
            Ok(node)
        },
    }
}

fn decode_string(buf: &[u8], pos: usize) -> (r: Result<Node, DecodeError>)
    requires
        pos < buf@.len(),
        is_digit(buf@[pos as int]),
    ensures
        match r {
            Ok(n) => parse_string(buf@, pos as int) == Some(n@) && pos < n.end <= buf@.len(),
            Err(e) => parse_string(buf@, pos as int) is None && e.offset <= buf@.len(),
        },
{
    let (de, v) = read_digits(buf, pos, buf.len() as u64);
    if de >= buf.len() || buf[de] != 58 {
        return Err(DecodeError { offset: de });
    }
    if buf[pos] == 48 && de - pos > 1 {
        return Err(DecodeError { offset: pos });
    }
    match v {
        None => Err(DecodeError { offset: de }),
        Some(m) => {
            let n = m as usize;
            if n > buf.len() - (de + 1) {
                return Err(DecodeError { offset: de });
            }
            let body_start = de + 1;
            let body_end = de + 1 + n;
            let mut bytes: Vec<u8> = Vec::with_capacity(n);
            let mut i: usize = body_start;
            while i < body_end
                invariant
                    body_start <= i <= body_end <= buf@.len(),
                    bytes@ == buf@.subrange(body_start as int, i as int),
                decreases body_end - i,
            {
                bytes.push(buf[i]);
                i = i + 1;
                assert(bytes@ =~= buf@.subrange(body_start as int, i as int));
            }
            Ok(Node { value: Value::ByteString(bytes), start: pos, end: body_end })
        },
    }
}

/// The models of a sequence of nodes.
pub open spec fn trees_of(v: Seq<Node>) -> Seq<Tree> {
    Seq::new(v.len(), |i: int| v[i]@)
}

/// The models of a sequence of dictionary entries.
pub open spec fn entries_of(v: Seq<(Vec<u8>, Node)>) -> Seq<(Seq<u8>, Tree)> {
    Seq::new(v.len(), |i: int| (v[i].0@, v[i].1@))
}

/// Decodes the value whose encoding starts at `pos`.
fn decode_at(buf: &[u8], pos: usize) -> (r: Result<Node, DecodeError>)
    requires
        pos <= buf@.len(),
    ensures
        match r {
            Ok(n) => parse(buf@, pos as int) == Some(n@) && pos < n.end <= buf@.len(),
            Err(e) => parse(buf@, pos as int) is None && e.offset <= buf@.len(),
        },
    decreases buf@.len() - pos, 0int,
{
    if pos >= buf.len() {
        return Err(DecodeError { offset: pos });
    }
    let c = buf[pos];
    if c == 105 {
        decode_integer(buf, pos)
    } else if 48 <= c && c <= 57 {
        decode_string(buf, pos)
    } else if c == 108 {
        match decode_list(buf, pos + 1) {
            Ok((items, end)) => {
                let node = Node { value: Value::List(items), start: pos, end };
                assert(node@.term->List_0 =~= trees_of(items@));
                Ok(node)
            },
            Err(e) => Err(e),
        }
    } else if c == 100 {
        match decode_dict(buf, pos + 1) {
            Ok((entries, end)) => {
                let node = Node { value: Value::Dictionary(entries), start: pos, end };
                assert(node@.term->Dict_0 =~= entries_of(entries@));
                Ok(node)
            },
            Err(e) => Err(e),
        }
    } else {
        Err(DecodeError { offset: pos })
    }
}

/// Decodes list elements from `p0` through the closing `e`.
fn decode_list(buf: &[u8], p0: usize) -> (r: Result<(Vec<Node>, usize), DecodeError>)
    requires
        1 <= p0 <= buf@.len(),
    ensures
        match r {
            Ok((items, e)) => parse_items(buf@, p0 as int) == Some((trees_of(items@), e as int))
                && p0 < e <= buf@.len(),
            Err(err) => parse_items(buf@, p0 as int) is None && err.offset <= buf@.len(),
        },
    decreases buf@.len() - p0, 1int,
{
    let mut items: Vec<Node> = Vec::new();
    let mut p: usize = p0;
    assert(trees_of(items@) =~= Seq::<Tree>::empty());
    loop
        invariant
            p0 <= p <= buf@.len(),
            parse_items(buf@, p0 as int) == match parse_items(buf@, p as int) {
                Some((rest, e)) => Some((trees_of(items@) + rest, e)),
                None => None,
            },
        decreases buf@.len() - p,
    {
        if p >= buf.len() {
            return Err(DecodeError { offset: p });
        }
        if buf[p] == 101 {
            assert(trees_of(items@) + Seq::<Tree>::empty() =~= trees_of(items@));
            return Ok((items, p + 1));
        }
        match decode_at(buf, p) {
            Err(e) => {
                return Err(e);
            },
            Ok(node) => {
                let ghost before = trees_of(items@);
                let ghost t = node@;
                let next = node.end;
                items.push(node);
                assert(trees_of(items@) =~= before.push(t));
                assert forall|rest: Seq<Tree>| before + (seq![t] + rest) =~= trees_of(items@) + rest by {}
                p = next;
            },
        }
    }
}

/// Decodes dictionary entries from `p0` through the closing `e`.
fn decode_dict(buf: &[u8], p0: usize) -> (r: Result<(Vec<(Vec<u8>, Node)>, usize), DecodeError>)
    requires
        1 <= p0 <= buf@.len(),
    ensures
        match r {
            Ok((entries, e)) => parse_entries(buf@, p0 as int) == Some(
                (entries_of(entries@), e as int),
            ) && p0 < e <= buf@.len(),
            Err(err) => parse_entries(buf@, p0 as int) is None && err.offset <= buf@.len(),
        },
    decreases buf@.len() - p0, 1int,
{
    let mut entries: Vec<(Vec<u8>, Node)> = Vec::new();
    let mut p: usize = p0;
    assert(entries_of(entries@) =~= Seq::<(Seq<u8>, Tree)>::empty());
    loop
        invariant
            p0 <= p <= buf@.len(),
            parse_entries(buf@, p0 as int) == match parse_entries(buf@, p as int) {
                Some((rest, e)) => Some((entries_of(entries@) + rest, e)),
                None => None,
            },
        decreases buf@.len() - p,
    {
        if p >= buf.len() {
            return Err(DecodeError { offset: p });
        }
        if buf[p] == 101 {
            assert(entries_of(entries@) + Seq::<(Seq<u8>, Tree)>::empty() =~= entries_of(entries@));
            return Ok((entries, p + 1));
        }
        if !(48 <= buf[p] && buf[p] <= 57) {
            return Err(DecodeError { offset: p });
        }
        let key_node = match decode_string(buf, p) {
            Err(e) => {
                return Err(e);
            },
            Ok(k) => k,
        };
        let key_end = key_node.end;
        let ghost kt = key_node@;
        let key: Vec<u8> = match key_node.value {
            Value::ByteString(b) => b,
            _ => {
                proof {
                    assert(false);
                }
                Vec::new()
            },
        };
        assert(key@ == key_bytes(kt));
        let node = match decode_at(buf, key_end) {
            Err(e) => {
                return Err(e);
            },
            Ok(v) => v,
        };
        let ghost before = entries_of(entries@);
        let ghost entry = (key@, node@);
        let next = node.end;
        entries.push((key, node));
        assert(entries_of(entries@) =~= before.push(entry));
        assert forall|rest: Seq<(Seq<u8>, Tree)>|
            before + (seq![entry] + rest) =~= entries_of(entries@) + rest by {}
        p = next;
    }
}

/// Decodes a whole buffer. Bytes after the root value are refused.
pub fn decode(buf: &[u8]) -> (r: Result<Node, DecodeError>)
    ensures
        match r {
            Ok(n) => decode_spec(buf@) == Some(n@),
            Err(e) => decode_spec(buf@) is None && e.offset <= buf@.len(),
        },
{
    match decode_at(buf, 0) {
        Ok(n) => if n.end == buf.len() {
            Ok(n)
        } else {
            Err(DecodeError { offset: n.end })
        },
        Err(e) => Err(e),
    }
}

} // verus!

//! The projection of a decoded tree onto JSON values.
use vstd::prelude::*;
use vstd::utf8::{decode_utf8, valid_utf8};
use crate::error::Error;
use crate::decode::{entries_of, trees_of};
use crate::value::{Node, Term, Tree, Value};

verus! {

/// A JSON value. Object members keep the order in which their keys first
/// appeared; keys are unique.
#[derive(Debug, PartialEq, Eq)]
pub enum Json {
    Number(i64),
    Text(String),
    Array(Vec<Json>),
    Object(Vec<(String, Json)>),
}

/// Model of a JSON value.
pub enum JTerm {
    Num(int),
    Text(Seq<char>),
    Arr(Seq<JTerm>),
    Obj(Seq<(Seq<char>, JTerm)>),
}

impl Json {
    pub open spec fn view(&self) -> JTerm
        decreases self,
    {
        match self {
            Json::Number(n) => JTerm::Num(*n as int),
            Json::Text(s) => JTerm::Text(s@),
            Json::Array(items) => JTerm::Arr(
                Seq::new(
                    items@.len(),
                    |i: int|
                        if 0 <= i < items@.len() {
                            items@[i].view()
                        } else {
                            arbitrary()
                        },
                ),
            ),
            Json::Object(members) => JTerm::Obj(
                Seq::new(
                    members@.len(),
                    |i: int|
                        if 0 <= i < members@.len() {
                            (members@[i].0@, members@[i].1.view())
                        } else {
                            arbitrary()
                        },
                ),
            ),
        }
    }
}

/// The models of a sequence of JSON values.
pub open spec fn jterms_of(v: Seq<Json>) -> Seq<JTerm> {
    Seq::new(v.len(), |i: int| v[i]@)
}

/// The models of a sequence of object members.
pub open spec fn members_of(v: Seq<(String, Json)>) -> Seq<(Seq<char>, JTerm)> {
    Seq::new(v.len(), |i: int| (v[i].0@, v[i].1@))
}

/// Relies on `std::str::from_utf8`: it succeeds exactly on valid UTF-8, and
/// the text it returns is the one those bytes encode.
#[verifier::external_body]
fn utf8_text(b: &[u8]) -> (r: Option<&str>)
    ensures
        r is Some <==> valid_utf8(b@),
        r is Some ==> r->Some_0@ == decode_utf8(b@),
{
    std::str::from_utf8(b).ok()
}

/// A byte string that is not UTF-8: an array holding one array of the bytes.
pub open spec fn binary_fallback(b: Seq<u8>) -> JTerm {
    JTerm::Arr(seq![JTerm::Arr(Seq::new(b.len(), |i: int| JTerm::Num(b[i] as int)))])
}

/// Text where the bytes are UTF-8, else the binary fallback.
pub open spec fn text_or_bytes(b: Seq<u8>) -> JTerm {
    if valid_utf8(b) {
        JTerm::Text(decode_utf8(b))
    } else {
        binary_fallback(b)
    }
}

/// The index of the member with key `k`, the first one should there be
/// several, or -1.
pub open spec fn key_index(obj: Seq<(Seq<char>, JTerm)>, k: Seq<char>) -> int
    decreases obj.len(),
{
    if obj.len() == 0 {
        -1
    } else if key_index(obj.drop_last(), k) >= 0 {
        key_index(obj.drop_last(), k)
    } else if obj.last().0 == k {
        obj.len() - 1
    } else {
        -1
    }
}

/// Binds `k` to `v`: a present key keeps its place and takes the new value.
pub open spec fn insert_key(obj: Seq<(Seq<char>, JTerm)>, k: Seq<char>, v: JTerm) -> Seq<
    (Seq<char>, JTerm),
> {
    let i = key_index(obj, k);
    if i >= 0 {
        obj.update(i, (k, v))
    } else {
        obj.push((k, v))
    }
}

/// The members whose key is not `k`, in their order.
pub open spec fn without_key(obj: Seq<(Seq<char>, JTerm)>, k: Seq<char>) -> Seq<
    (Seq<char>, JTerm),
>
    decreases obj.len(),
{
    if obj.len() == 0 {
        obj
    } else if obj.last().0 == k {
        without_key(obj.drop_last(), k)
    } else {
        without_key(obj.drop_last(), k).push(obj.last())
    }
}

/// The JSON value of a tree, or `None` where a dictionary key is not UTF-8.
pub open spec fn project(t: Tree) -> Option<JTerm>
    decreases t,
{
    match t.term {
        Term::Int(n) => Some(JTerm::Num(n)),
        Term::Bytes(b) => Some(text_or_bytes(b)),
        Term::List(items) => match project_items(items) {
            Some(js) => Some(JTerm::Arr(js)),
            None => None,
        },
        Term::Dict(es) => match project_entries(es) {
            Some(obj) => Some(JTerm::Obj(obj)),
            None => None,
        },
    }
}

pub open spec fn project_items(items: Seq<Tree>) -> Option<Seq<JTerm>>
    decreases items,
{
    if items.len() == 0 {
        Some(Seq::empty())
    } else {
        match project_items(items.drop_last()) {
            Some(js) => match project(items.last()) {
                Some(j) => Some(js.push(j)),
                None => None,
            },
            None => None,
        }
    }
}

/// Later entries with an equal key replace the value of earlier ones.
pub open spec fn project_entries(es: Seq<(Seq<u8>, Tree)>) -> Option<Seq<(Seq<char>, JTerm)>>
    decreases es,
{
    if es.len() == 0 {
        Some(Seq::empty())
    } else {
        match project_entries(es.drop_last()) {
            Some(obj) => if valid_utf8(es.last().0) {
                match project(es.last().1) {
                    Some(j) => Some(insert_key(obj, decode_utf8(es.last().0), j)),
                    None => None,
                }
            } else {
                None
            },
            None => None,
        }
    }
}

/// The key `info`.
pub open spec fn info_text() -> Seq<char> {
    seq!['i', 'n', 'f', 'o']
}

/// The key `pieces`.
pub open spec fn pieces_text() -> Seq<char> {
    seq!['p', 'i', 'e', 'c', 'e', 's']
}

/// Drops `pieces` from the object bound to `info`, where the value is an
/// object with an `info` member that is an object; any other value is kept.
pub open spec fn strip_pieces_spec(j: JTerm) -> JTerm {
    match j {
        JTerm::Obj(ps) => {
            let i = key_index(ps, info_text());
            if i >= 0 && ps[i].1 is Obj {
                JTerm::Obj(
                    ps.update(i, (ps[i].0, JTerm::Obj(without_key(ps[i].1->Obj_0, pieces_text())))),
                )
            } else {
                j
            }
        },
        _ => j,
    }
}

pub proof fn lemma_key_index_bounds(obj: Seq<(Seq<char>, JTerm)>, k: Seq<char>)
    ensures
        -1 <= key_index(obj, k) < obj.len(),
        key_index(obj, k) >= 0 ==> obj[key_index(obj, k)].0 == k,
    decreases obj.len(),
{
    if obj.len() > 0 {
        lemma_key_index_bounds(obj.drop_last(), k);
    }
}

proof fn lemma_key_index_prefix(obj: Seq<(Seq<char>, JTerm)>, m: int, k: Seq<char>)
    requires
        0 <= m <= obj.len(),
        key_index(obj.subrange(0, m), k) >= 0,
    ensures
        key_index(obj, k) == key_index(obj.subrange(0, m), k),
    decreases obj.len() - m,
{
    if m < obj.len() {
        assert(obj.subrange(0, m + 1).drop_last() =~= obj.subrange(0, m));
        lemma_key_index_prefix(obj, m + 1, k);
    } else {
        assert(obj.subrange(0, m) =~= obj);
    }
}

proof fn lemma_items_prefix_none(items: Seq<Tree>, i: int)
    requires
        0 <= i <= items.len(),
        project_items(items.subrange(0, i)) is None,
    ensures
        project_items(items) is None,
    decreases items.len() - i,
{
    if i < items.len() {
        assert(items.subrange(0, i + 1).drop_last() =~= items.subrange(0, i));
        lemma_items_prefix_none(items, i + 1);
    } else {
        assert(items.subrange(0, i) =~= items);
    }
}

proof fn lemma_entries_prefix_none(es: Seq<(Seq<u8>, Tree)>, i: int)
    requires
        0 <= i <= es.len(),
        project_entries(es.subrange(0, i)) is None,
    ensures
        project_entries(es) is None,
    decreases es.len() - i,
{
    if i < es.len() {
        assert(es.subrange(0, i + 1).drop_last() =~= es.subrange(0, i));
        lemma_entries_prefix_none(es, i + 1);
    } else {
        assert(es.subrange(0, i) =~= es);
    }
}

/// The position of the member with key `k`.
fn find_key(obj: &Vec<(String, Json)>, k: &String) -> (r: Option<usize>)
    ensures
        match r {
            Some(i) => key_index(members_of(obj@), k@) == i as int,
            None => key_index(members_of(obj@), k@) == -1,
        },
{
    let ghost ms = members_of(obj@);
    let mut j: usize = 0;
    assert(ms.subrange(0, 0).len() == 0);
    while j < obj.len()
        invariant
            j <= obj@.len(),
            ms == members_of(obj@),
            key_index(ms.subrange(0, j as int), k@) == -1,
        decreases obj@.len() - j,
    {
        assert(ms.subrange(0, j + 1).drop_last() =~= ms.subrange(0, j as int));
        if obj[j].0 == *k {
            proof {
                lemma_key_index_prefix(ms, j + 1, k@);
            }
            return Some(j);
        }
        j = j + 1;
    }
    assert(ms.subrange(0, j as int) =~= ms);
    None
}

/// Binds `k` to `v` in an object.
fn insert_member(obj: &mut Vec<(String, Json)>, k: String, v: Json)
    ensures
        members_of(final(obj)@) == insert_key(members_of(old(obj)@), k@, v@),
{
    let ghost before = members_of(obj@);
    let ghost entry = (k@, v@);
    match find_key(obj, &k) {
        Some(i) => {
            proof {
                lemma_key_index_bounds(before, k@);
            }
            obj.remove(i);
            obj.insert(i, (k, v));
            assert(members_of(obj@) =~= before.update(i as int, entry));
        },
        None => {
            obj.push((k, v));
            assert(members_of(obj@) =~= before.push(entry));
        },
    }
}

fn bytes_to_json(b: &Vec<u8>) -> (r: Json)
    ensures
        r@ == text_or_bytes(b@),
{
    match utf8_text(b.as_slice()) {
        Some(s) => Json::Text(s.to_owned()),
        None => {
            let mut nums: Vec<Json> = Vec::new();
            let mut i: usize = 0;
            while i < b.len()
                invariant
                    i <= b@.len(),
                    jterms_of(nums@) == Seq::new(i as nat, |k: int| JTerm::Num(b@[k] as int)),
                decreases b@.len() - i,
            {
                let ghost before = jterms_of(nums@);
                nums.push(Json::Number(b[i] as i64));
                assert(jterms_of(nums@) =~= before.push(JTerm::Num(b@[i as int] as int)));
                i = i + 1;
                assert(jterms_of(nums@) =~= Seq::new(i as nat, |k: int| JTerm::Num(b@[k] as int)));
            }
            let inner = Json::Array(nums);
            assert(inner@->Arr_0 =~= jterms_of(nums@));
            let mut outer: Vec<Json> = Vec::new();
            outer.push(inner);
            let r = Json::Array(outer);
            assert(r@->Arr_0 =~= binary_fallback(b@)->Arr_0);
            r
        },
    }
}

/// Projects a decoded tree onto JSON. Fails only where a dictionary key is
/// not UTF-8; a byte string that is not UTF-8 becomes the binary fallback.
pub fn to_json(node: &Node) -> (r: Result<Json, Error>)
    ensures
        match project(node@) {
            Some(j) => r is Ok && r->Ok_0@ == j,
            None => r == Err::<Json, Error>(Error::NonUtf8DictionaryKey),
        },
    decreases node@,
{
    match &node.value {
        Value::Integer(n) => Ok(Json::Number(*n)),
        Value::ByteString(b) => Ok(bytes_to_json(b)),
        Value::List(items) => {
            let ghost ts = node@.term->List_0;
            assert(ts =~= trees_of(items@));
            let mut out: Vec<Json> = Vec::new();
            let mut i: usize = 0;
            assert(ts.subrange(0, 0) =~= Seq::<Tree>::empty());
            assert(jterms_of(out@) =~= Seq::<JTerm>::empty());
            while i < items.len()
                invariant
                    i <= items@.len(),
                    ts == trees_of(items@),
                    node@.term == Term::List(ts),
                    project_items(ts.subrange(0, i as int)) == Some(jterms_of(out@)),
                decreases items@.len() - i,
            {
                assert(ts.subrange(0, i + 1).drop_last() =~= ts.subrange(0, i as int));
                assert(ts.subrange(0, i + 1).last() == ts[i as int]);
                proof {
                    assert(decreases_to!(node@ => node@.term));
                    assert(decreases_to!(node@.term => node@.term->List_0));
                    assert(decreases_to!(ts => ts[i as int]));
                    assert(ts[i as int] == items@[i as int]@);
                }
                match to_json(&items[i]) {
                    Err(e) => {
                        assert(project(ts[i as int]) is None);
                        proof {
                            lemma_items_prefix_none(ts, i + 1);
                        }
                        assert(node@.term == Term::List(ts));
                        assert(project(node@) is None);
                        return Err(e);
                    },
                    Ok(j) => {
                        let ghost before = jterms_of(out@);
                        out.push(j);
                        assert(jterms_of(out@) =~= before.push(project(ts[i as int]).unwrap()));
                    },
                }
                i = i + 1;
            }
            assert(ts.subrange(0, i as int) =~= ts);
            let r = Json::Array(out);
            assert(r@->Arr_0 =~= jterms_of(out@));
            Ok(r)
        },
        Value::Dictionary(entries) => {
            let ghost es = node@.term->Dict_0;
            assert(es =~= entries_of(entries@));
            let mut obj: Vec<(String, Json)> = Vec::new();
            let mut i: usize = 0;
            assert(es.subrange(0, 0) =~= Seq::<(Seq<u8>, Tree)>::empty());
            assert(members_of(obj@) =~= Seq::<(Seq<char>, JTerm)>::empty());
            while i < entries.len()
                invariant
                    i <= entries@.len(),
                    es == entries_of(entries@),
                    node@.term == Term::Dict(es),
                    project_entries(es.subrange(0, i as int)) == Some(members_of(obj@)),
                decreases entries@.len() - i,
            {
                assert(es.subrange(0, i + 1).drop_last() =~= es.subrange(0, i as int));
                assert(es.subrange(0, i + 1).last() == es[i as int]);
                proof {
                    assert(decreases_to!(node@ => node@.term));
                    assert(decreases_to!(node@.term => node@.term->Dict_0));
                    assert(decreases_to!(es => es[i as int]));
                    assert(decreases_to!(es[i as int] => es[i as int].1));
                    assert(es[i as int].1 == entries@[i as int].1@);
                }
                let key = match utf8_text(entries[i].0.as_slice()) {
                    Some(s) => s.to_owned(),
                    None => {
                        assert(!valid_utf8(es[i as int].0));
                        proof {
                            lemma_entries_prefix_none(es, i + 1);
                        }
                        assert(node@.term == Term::Dict(es));
                        assert(project(node@) is None);
                        return Err(Error::NonUtf8DictionaryKey);
                    },
                };
                let value = match to_json(&entries[i].1) {
                    Ok(j) => j,
                    Err(e) => {
                        assert(project(es[i as int].1) is None);
                        proof {
                            lemma_entries_prefix_none(es, i + 1);
                        }
                        return Err(e);
                    },
                };
                insert_member(&mut obj, key, value);
                i = i + 1;
            }
            assert(es.subrange(0, i as int) =~= es);
            let r = Json::Object(obj);
            assert(r@->Obj_0 =~= members_of(obj@));
            Ok(r)
        },
    }
}

/// Removes `pieces` from the object bound to `info` (see [`strip_pieces_spec`]).
pub fn strip_pieces(j: Json) -> (r: Json)
    ensures
        r@ == strip_pieces_spec(j@),
{
    let ghost jv = j@;
    let mut members = match j {
        Json::Object(members) => members,
        other => {
            return other;
        },
    };
    let ghost ps = members_of(members@);
    assert(jv == JTerm::Obj(ps)) by {
        assert(jv->Obj_0 =~= ps);
    }
    let info = "info".to_owned();
    proof {
        reveal_strlit("info");
        assert(info@ =~= info_text());
        lemma_key_index_bounds(ps, info_text());
    }
    let i = match find_key(&members, &info) {
        Some(i) => i,
        None => {
            let r = Json::Object(members);
            assert(r@->Obj_0 =~= ps);
            return r;
        },
    };
    let is_object = match &members[i].1 {
        Json::Object(_) => true,
        _ => false,
    };
    if !is_object {
        let r = Json::Object(members);
        assert(r@->Obj_0 =~= ps);
        return r;
    }
    let (key, inner) = members.remove(i);
    let mut inner_members = match inner {
        Json::Object(m) => m,
        _ => {
            proof {
                assert(false);
            }
            Vec::new()
        },
    };
    let ghost inner_ps = members_of(inner_members@);
    assert(ps[i as int].1 == JTerm::Obj(inner_ps)) by {
        assert(ps[i as int].1->Obj_0 =~= inner_ps);
    }
    let pieces = "pieces".to_owned();
    proof {
        reveal_strlit("pieces");
        assert(pieces@ =~= pieces_text());
    }
    let mut kept: Vec<(String, Json)> = Vec::new();
    let ghost n = inner_ps.len();
    let ghost mut done: int = 0;
    assert(inner_ps.subrange(0, 0) =~= Seq::<(Seq<char>, JTerm)>::empty());
    assert(members_of(kept@) =~= Seq::<(Seq<char>, JTerm)>::empty());
    assert(members_of(inner_members@) =~= inner_ps.subrange(0, n as int));
    while inner_members.len() > 0
        invariant
            0 <= done <= n == inner_ps.len(),
            pieces@ == pieces_text(),
            done + inner_members@.len() == n,
            members_of(inner_members@) == inner_ps.subrange(done, n as int),
            members_of(kept@) == without_key(inner_ps.subrange(0, done), pieces_text()),
        decreases inner_members@.len(),
    {
        let ghost before = members_of(kept@);
        let ghost m = inner_ps[done];
        assert(members_of(inner_members@)[0] == m);
        let ghost old_ms = members_of(inner_members@);
        let (k, v) = inner_members.remove(0);
        assert(members_of(inner_members@) =~= old_ms.subrange(1, old_ms.len() as int));
        assert(inner_ps.subrange(0, done + 1).drop_last() =~= inner_ps.subrange(0, done));
        if k != pieces {
            kept.push((k, v));
            assert(members_of(kept@) =~= before.push(m));
        }
        proof {
            done = done + 1;
        }
        assert(members_of(inner_members@) =~= inner_ps.subrange(done, n as int));
    }
    assert(inner_ps.subrange(0, done) =~= inner_ps);
    let new_inner = Json::Object(kept);
    assert(new_inner@->Obj_0 =~= members_of(kept@));
    assert(key@ == ps[i as int].0);
    let ghost entry = (key@, new_inner@);
    members.insert(i, (key, new_inner));
    assert(members_of(members@) =~= ps.update(i as int, entry));
    let r = Json::Object(members);
    assert(r@->Obj_0 =~= members_of(members@));
    r
}

} // verus!

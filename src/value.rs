//! The decoded bencode tree and its mathematical model.
use vstd::prelude::*;

verus! {

/// A decoded bencode value.
#[derive(Debug, PartialEq, Eq)]
pub enum Value {
    Integer(i64),
    ByteString(Vec<u8>),
    List(Vec<Node>),
    /// Entries in the order in which they were read; keys are byte strings.
    Dictionary(Vec<(Vec<u8>, Node)>),
}

/// A decoded value together with the half-open byte range `[start, end)` of
/// the input buffer that holds its encoding.
#[derive(Debug, PartialEq, Eq)]
pub struct Node {
    pub value: Value,
    pub start: usize,
    pub end: usize,
}

/// Model of a value: integers are mathematical, byte strings are sequences.
pub enum Term {
    Int(int),
    Bytes(Seq<u8>),
    List(Seq<Tree>),
    Dict(Seq<(Seq<u8>, Tree)>),
}

/// Model of a node.
pub struct Tree {
    pub term: Term,
    pub start: int,
    pub end: int,
}

impl Node {
    pub open spec fn view(&self) -> Tree
        decreases self,
    {
        Tree {
            term: match &self.value {
                Value::Integer(n) => Term::Int(*n as int),
                Value::ByteString(b) => Term::Bytes(b@),
                Value::List(items) => Term::List(
                    Seq::new(
                        items@.len(),
                        |i: int|
                            if 0 <= i < items@.len() {
                                items@[i].view()
                            } else {
                                arbitrary()
                            },
                    ),
                ),
                Value::Dictionary(entries) => Term::Dict(
                    Seq::new(
                        entries@.len(),
                        |i: int|
                            if 0 <= i < entries@.len() {
                                (entries@[i].0@, entries@[i].1.view())
                            } else {
                                arbitrary()
                            },
                    ),
                ),
            },
            start: self.start as int,
            end: self.end as int,
        }
    }
}

} // verus!

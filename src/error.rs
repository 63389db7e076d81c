//! The errors of the library.
use vstd::prelude::*;
use crate::decode::DecodeError;

verus! {

#[derive(Debug, Clone, Copy, PartialEq, Eq)]
pub enum Error {
    /// The input is not a bencode value.
    Decode(DecodeError),
    /// The root is not a dictionary with an `info` entry.
    MissingInfoKey,
    /// A dictionary key is not UTF-8 text, so it cannot be a JSON object key.
    NonUtf8DictionaryKey,
}

} // verus!

//! The whole operation: decode, hash the `info` value, project onto JSON.
use vstd::prelude::*;
use crate::decode::decode;
use crate::error::Error;
use crate::grammar::decode_spec;
use crate::info_hash::{compute_info_hash, info_hash_spec};
use crate::json::{project, strip_pieces, strip_pieces_spec, to_json, Json};

verus! {

/// The decoded metadata, without `pieces` under `info`, and the info hash.
#[derive(Debug)]
pub struct TorrentInfo {
    pub json: Json,
    pub info_hash: String,
}

/// Decodes a buffer and computes its info hash.
pub fn get_info_hash(buffer: &[u8]) -> (r: Result<String, Error>)
    ensures
        match decode_spec(buffer@) {
            None => r is Err && r->Err_0 is Decode,
            Some(root) => match info_hash_spec(buffer@, root) {
                Some(h) => r is Ok && r->Ok_0@ == h,
                None => r == Err::<String, Error>(Error::MissingInfoKey),
            },
        },
{
    let root = match decode(buffer) {
        Ok(n) => n,
        Err(e) => {
            return Err(Error::Decode(e));
        },
    };
    compute_info_hash(buffer, &root)
}

/// Decodes a buffer, computes its info hash over the original bytes of the
/// `info` value, and projects the tree onto JSON with `pieces` left out of
/// `info`. The first failing stage gives the error.
pub fn get_torrent_info(buffer: &[u8]) -> (r: Result<TorrentInfo, Error>)
    ensures
        match decode_spec(buffer@) {
            None => r is Err && r->Err_0 is Decode,
            Some(root) => match info_hash_spec(buffer@, root) {
                None => r == Err::<TorrentInfo, Error>(Error::MissingInfoKey),
                Some(h) => match project(root) {
                    None => r == Err::<TorrentInfo, Error>(Error::NonUtf8DictionaryKey),
                    Some(j) => r is Ok && r->Ok_0.info_hash@ == h && r->Ok_0.json@
                        == strip_pieces_spec(j),
                },
            },
        },
{
    let root = match decode(buffer) {
        Ok(n) => n,
        Err(e) => {
            return Err(Error::Decode(e));
        },
    };
    let info_hash = match compute_info_hash(buffer, &root) {
        Ok(h) => h,
        Err(e) => {
            return Err(e);
        },
    };
    let json = match to_json(&root) {
        Ok(j) => j,
        Err(e) => {
            return Err(e);
        },
    };
    Ok(TorrentInfo { json: strip_pieces(json), info_hash })
}

} // verus!

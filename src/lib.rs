pub mod value;
pub mod grammar;
pub mod decode;
pub mod error;
pub mod info_hash;
pub mod json;
pub mod torrent;

pub use decode::{decode, DecodeError};
pub use error::Error;
pub use info_hash::compute_info_hash;
pub use json::{strip_pieces, to_json, Json};
pub use torrent::{get_info_hash, get_torrent_info, TorrentInfo};
pub use value::{Node, Value};
pub mod laws;

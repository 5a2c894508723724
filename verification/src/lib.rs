//! A verified bencode codec (the binary serialization format used by
//! BitTorrent metainfo files) and a projector from decoded values to a typed
//! torrent-metadata record with its SHA-1 info-hash.

pub mod decode;
pub mod error;
pub mod laws;
pub mod torrent;
pub mod value;

pub use decode::{decode, decode_bytes, DecodeError};
pub use error::RunError;
pub use torrent::{Info, Torrent, TorrentError};
pub use value::Value;

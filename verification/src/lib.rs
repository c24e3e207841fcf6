//! Bencode values, their canonical byte encoding, and the metainfo document
//! built on top of them.

pub mod decode;
pub mod digest;
pub mod encode;
pub mod error;
pub mod hashes;
pub mod laws;
pub mod text;
pub mod torrent;
pub mod torrent_laws;
pub mod value;

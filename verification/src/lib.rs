//! Reading of BitTorrent metadata: a bencode codec, the typed torrent
//! descriptor built from a decoded value, and the derivation of the
//! fields that depend on the `info` dictionary.

pub mod bencode;
pub mod decode;
pub mod digest;
pub mod fields;
pub mod keys;
pub mod normal;
pub mod pieces;
pub mod reload;
pub mod roundtrip;
pub mod torrent;

pub use torrent::Torrent;

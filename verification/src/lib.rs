//! Bencode decoding and BitTorrent metainfo handling.

pub mod bencode;
pub mod metainfo;
pub mod peer;
pub mod protocol;
pub mod text;
pub mod tracker;

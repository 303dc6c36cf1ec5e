//! A small BitTorrent client core: the bencode codec, the torrent metainfo
//! model, the compact peers codec, the tracker request and response, the
//! peer wire framing and the single-piece download session.

pub mod bencode;
pub mod frame;
pub mod hashing;
pub mod metainfo;
pub mod peers;
pub mod session;
pub mod tracker;
pub mod wire;

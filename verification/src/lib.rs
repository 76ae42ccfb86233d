//! A minimal BitTorrent client core: the bencode codec, the metainfo view with
//! its info-hash, the tracker announce, and the peer wire protocol with the
//! block pipeline that downloads and checks one piece at a time.

pub mod bencode;
pub mod decimal;
pub mod decode;
pub mod digest;
pub mod grammar;
pub mod peer;
pub mod round_trip;
pub mod text;
pub mod torrent;
pub mod tracker;
pub mod wire;

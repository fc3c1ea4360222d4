//! A BitTorrent client's core: the bencode codec, torrent metadata, the tracker
//! exchange, the peer handshake and message framing, and the download of a piece.
pub mod bencode;
pub mod canonical;
pub mod download;
pub mod hashing;
pub mod metainfo;
pub mod peer;
pub mod tracker;

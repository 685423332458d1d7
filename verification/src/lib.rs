//! A BitTorrent client library: bencode, metainfo, trackers, the peer wire
//! protocol, piece scheduling and the mapping of pieces to files.
pub mod bencode;
pub mod bitfield;
pub mod bytes;
pub mod digest;
pub mod error;
pub mod metainfo;
pub mod peer;
pub mod piece;
pub mod random;
pub mod scan;
pub mod session;
pub mod storage;
pub mod text;
pub mod timestamp;
pub mod tracker;
pub mod unique;

//! A BitTorrent tracker core: the in-memory registry of torrents and their
//! peers, the announce-request parsing and normalization pipeline, randomized
//! peer selection, and the bencode wire encoding, per BEP 0003.
//!
//! The HTTP transport is not part of this crate: callers hand the tracker an
//! already-parsed method/path/query triple and encode the returned result.
pub mod bencode;
pub mod error;
pub mod ids;
pub mod metainfo;
pub mod peer;
pub mod query;
pub mod selection;
pub mod session;
pub mod tracker;

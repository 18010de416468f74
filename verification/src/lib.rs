//! A verified core for the BitTorrent metadata formats: a bencode codec,
//! a typed torrent model with SHA-1 info-hash derivation, fixed-size
//! chunking for piece hashes and compact peer lists, and the percent-encoded
//! tracker query string.

pub mod bencode;
pub mod chunks;
pub mod decoder;
pub mod digest;
pub mod numbers;
pub mod text;
pub mod torrent;
pub mod tracker;

//! A BitTorrent peer library: wire formats, piece bookkeeping and the
//! decisions a peer and its manager take, with their contracts.
use vstd::prelude::*;

pub mod announce;
pub mod client;
pub mod database;
mod deps;
pub mod hexdigits;
pub mod download;
pub mod extensions;
pub mod handshake;
pub mod magnet;
pub mod manager;
pub mod messages;
pub mod metadata;
pub mod payloads;
pub mod peer;
pub mod piece_selector;
pub mod torrent;
pub mod tracker;
pub mod wire;

verus! {

/// The largest block that is requested from a peer at once (16 KiB).
pub const BLOCK_MAX: u32 = 16384;

} // verus!

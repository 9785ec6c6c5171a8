//! Core of a peer-to-peer file-distribution client: the wire-level peer
//! protocol and the piece-download scheduling logic, with verified contracts.

pub mod downloaded;
pub mod error;
pub mod hashes;
pub mod peer;
pub mod piece;
pub mod torrent;
pub mod tracker;

use vstd::prelude::*;

verus! {

/// Conventional maximum size of one block request, in bytes.
pub const BLOCK_MAX: u32 = 16384;

} // verus!

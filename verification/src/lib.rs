//! A verified BitTorrent-style tracker core: the bencoding codec, the
//! announce-request parser, per-torrent swarm registries with their
//! response rendering, and pure models of the concurrent parts (worker
//! pool drain, dispatcher shutdown). The network and thread plumbing
//! around this library stays outside it.

use vstd::prelude::*;

pub mod announce_decoder;
pub mod bencoding;
pub mod urlencoding;
pub mod byteseq;
pub mod handler;
pub mod numbers;
pub mod peer_info;
pub mod registry;
pub mod thread_pool;
pub mod torrent_info;

verus! {

/// Internal server-side failure: the registry lock was poisoned by a
/// panicking worker, so a single connection's handling must be aborted.
#[derive(Debug, Clone, Copy, PartialEq, Eq, Structural)]
pub enum TrackerError {
    UnlockingMutexOfTorrents,
}

} // verus!

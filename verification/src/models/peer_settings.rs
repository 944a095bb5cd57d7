//! Per-peer limits of the download, read from the settings file.
use vstd::prelude::*;

verus! {

/// Limits on how much work peers are given.
#[derive(Clone, Copy, Debug)]
pub struct PeerOptions {
    pub per_peer_inflight_count: usize,
    pub per_peer_active_request_count: usize,
    /// How many peers may work on one piece at the same time (one more is
    /// let in: the piece selection admits a piece while its count is at most this).
    pub per_piece_active_peer_count: usize,
    /// Seconds.
    pub block_request_timeout: usize,
    /// Seconds after which a piece assigned to a peer is taken back.
    pub piece_request_timeout: usize,
}

impl Default for PeerOptions {
    /// The values used when the settings file gives none.
    fn default() -> (r: Self)
        ensures
            r == (PeerOptions {
                per_peer_inflight_count: 25,
                per_peer_active_request_count: 5,
                per_piece_active_peer_count: 5,
                block_request_timeout: 4,
                piece_request_timeout: 30,
            }),
    {
        PeerOptions {
            per_peer_inflight_count: 25,
            per_peer_active_request_count: 5,
            per_piece_active_peer_count: 5,
            block_request_timeout: 4,
            piece_request_timeout: 30,
        }
    }
}

} // verus!

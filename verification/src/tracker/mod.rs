//! Tracker communication: the announce request and its answer, over HTTP and
//! over UDP (BEP 15).

pub mod http;
pub mod udp;

use crate::peer::PeerAddr;
use vstd::prelude::*;

verus! {

/// What a tracker answers to an announce.
#[derive(Debug, Clone)]
pub struct AnnounceResponse {
    /// Seconds to wait before the next announce.
    pub interval: u64,
    /// The peers the tracker knows.
    pub peers: Vec<PeerAddr>,
}

/// A peer as its address bytes and port.
pub open spec fn peer_model(p: PeerAddr) -> (Seq<u8>, u16) {
    (p.ip@, p.port)
}

pub open spec fn peers_model(ps: Seq<PeerAddr>) -> Seq<(Seq<u8>, u16)> {
    ps.map_values(|p: PeerAddr| peer_model(p))
}

} // verus!

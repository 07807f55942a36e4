//! The BitTorrent peer wire protocol: handshakes, messages, bitfields and the
//! state kept for each connected peer.

pub mod bitfield;
pub mod message;
pub mod handshake;

use vstd::prelude::*;

verus! {

/// A peer's IPv4 address and port.
#[derive(Debug, Clone, Copy, PartialEq, Eq, Hash)]
pub struct PeerAddr {
    pub ip: [u8; 4],
    pub port: u16,
}

} // verus!
pub mod client;

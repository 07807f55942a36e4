//! What is kept for each connected peer, and how its messages change it.

use super::bitfield::{Bitfield, spec_set_piece};
use super::handshake::HandshakeError;
use super::message::{Message, MessageError, MessageId};
use crate::wire::be32_value;
use vstd::prelude::*;

verus! {

/// Why a peer connection failed.
#[derive(Debug)]
pub enum ClientError {
    Connect(std::io::Error),
    Handshake(HandshakeError),
    Message(MessageError),
    Timeout,
}

/// `std::time::Instant`, a point on the monotonic clock.
#[verifier::external_type_specification]
#[verifier::external_body]
pub struct ExInstant(std::time::Instant);

/// `std::time::Instant::now`: the current time; nothing is stated of it.
#[verifier::external_body]
fn now() -> std::time::Instant {
    std::time::Instant::now()
}

/// Statistics kept per peer for scoring.
#[derive(Debug, Clone, Copy)]
pub struct PeerStats {
    pub bytes_downloaded: u64,
    pub pieces_completed: u32,
    pub failed_attempts: u32,
    pub connected_at: std::time::Instant,
    pub last_activity: std::time::Instant,
}

impl PeerStats {
    /// Fresh statistics: nothing downloaded, no failures, connected now.
    pub fn new() -> (r: Self)
        ensures
            r.bytes_downloaded == 0,
            r.pieces_completed == 0,
            r.failed_attempts == 0,
            r.connected_at == r.last_activity,
    {
        let t = now();
        PeerStats {
            bytes_downloaded: 0,
            pieces_completed: 0,
            failed_attempts: 0,
            connected_at: t,
            last_activity: t,
        }
    }
}

/// The state of a connection to a peer: whether it chokes us, which pieces
/// it has, and its statistics.
#[derive(Debug, Clone)]
pub struct PeerState {
    pub choked: bool,
    pub bitfield: Bitfield,
    pub stats: PeerStats,
}

impl PeerState {
    /// A new connection starts choked.
    pub fn new(bitfield: Bitfield) -> (r: Self)
        ensures
            r.choked,
            r.bitfield == bitfield,
            r.stats.bytes_downloaded == 0,
            r.stats.pieces_completed == 0,
            r.stats.failed_attempts == 0,
    {
        PeerState { choked: true, bitfield, stats: PeerStats::new() }
    }

    /// Apply an incoming message: `choke` and `unchoke` set the choke state,
    /// a well-formed `have` marks its piece; other messages change nothing.
    pub fn handle_message(&mut self, msg: &Message)
        ensures
            final(self).stats == old(self).stats,
            final(self).bitfield.pieces() == old(self).bitfield.pieces(),
            msg.id == MessageId::Choke ==> final(self).choked,
            msg.id == MessageId::Unchoke ==> !final(self).choked,
            msg.id != MessageId::Choke && msg.id != MessageId::Unchoke ==> final(self).choked
                == old(self).choked,
            msg.id == MessageId::Have && msg.payload@.len() >= 4 ==> final(self).bitfield.bytes()
                == spec_set_piece(
                old(self).bitfield.bytes(),
                old(self).bitfield.pieces(),
                be32_value(msg.payload@.subrange(0, 4)) as int,
            ),
            !(msg.id == MessageId::Have && msg.payload@.len() >= 4) ==> final(self).bitfield
                == old(self).bitfield,
    {
        match msg.id {
            MessageId::Choke => self.choked = true,
            MessageId::Unchoke => self.choked = false,
            MessageId::Have => {
                if let Ok(index) = msg.parse_have() {
                    self.bitfield.set_piece(index as usize);
                }
            },
            _ => {},
        }
    }

    /// Count downloaded bytes and note the activity.
    pub fn record_download(&mut self, bytes: u64)
        requires
            old(self).stats.bytes_downloaded + bytes <= u64::MAX,
        ensures
            final(self).stats.bytes_downloaded == old(self).stats.bytes_downloaded + bytes,
            final(self).stats.pieces_completed == old(self).stats.pieces_completed,
            final(self).stats.failed_attempts == old(self).stats.failed_attempts,
            final(self).stats.connected_at == old(self).stats.connected_at,
            final(self).choked == old(self).choked,
            final(self).bitfield == old(self).bitfield,
    {
        self.stats.bytes_downloaded = self.stats.bytes_downloaded + bytes;
        self.stats.last_activity = now();
    }

    /// Count a completed piece.
    pub fn record_piece_complete(&mut self)
        requires
            old(self).stats.pieces_completed < u32::MAX,
        ensures
            final(self).stats == (PeerStats {
                pieces_completed: (old(self).stats.pieces_completed + 1) as u32,
                ..old(self).stats
            }),
            final(self).choked == old(self).choked,
            final(self).bitfield == old(self).bitfield,
    {
        self.stats.pieces_completed = self.stats.pieces_completed + 1;
    }

    /// Count a failure.
    pub fn record_failure(&mut self)
        requires
            old(self).stats.failed_attempts < u32::MAX,
        ensures
            final(self).stats == (PeerStats {
                failed_attempts: (old(self).stats.failed_attempts + 1) as u32,
                ..old(self).stats
            }),
            final(self).choked == old(self).choked,
            final(self).bitfield == old(self).bitfield,
    {
        self.stats.failed_attempts = self.stats.failed_attempts + 1;
    }
}

/// What to do with a message read while waiting for the peer's bitfield.
pub enum BitfieldStep {
    /// Read the next message.
    KeepReading,
    /// The peer's bitfield is this one.
    Done(Bitfield),
}

/// The decision after each message read while waiting for the bitfield: a
/// keep-alive and the messages that may come first (`unchoke`, `have`,
/// `choke`, `interested`, `not interested`) mean keep reading; a `bitfield`
/// message gives the bitfield; any other message means the peer sends none,
/// and an empty bitfield is taken.
pub fn bitfield_step(msg: Option<Message>, num_pieces: usize) -> (r: BitfieldStep)
    requires
        num_pieces + 7 <= usize::MAX,
    ensures
        match msg {
            None => r is KeepReading,
            Some(m) => match m.id {
                MessageId::Bitfield => r matches BitfieldStep::Done(b) && b.bytes() == m.payload@
                    && b.pieces() == num_pieces,
                MessageId::Unchoke | MessageId::Have | MessageId::Choke | MessageId::Interested
                | MessageId::NotInterested => r is KeepReading,
                _ => r matches BitfieldStep::Done(b) && b.pieces() == num_pieces && forall|i: int|
                    !b.has(i),
            },
        },
{
    match msg {
        None => BitfieldStep::KeepReading,
        Some(m) => {
            if m.id == MessageId::Bitfield {
                BitfieldStep::Done(Bitfield::from_bytes(m.payload, num_pieces))
            } else if m.id == MessageId::Unchoke || m.id == MessageId::Have || m.id
                == MessageId::Choke || m.id == MessageId::Interested || m.id
                == MessageId::NotInterested {
                BitfieldStep::KeepReading
            } else {
                BitfieldStep::Done(Bitfield::new(num_pieces))
            }
        },
    }
}

} // verus!

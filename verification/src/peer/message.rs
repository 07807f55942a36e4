//! Peer wire protocol messages (BEP 3): `<length:4><id:1><payload>`.

use crate::wire::{be32, be32_value, push_u32_be, read_u32_be};
use vstd::prelude::*;

verus! {

/// Why a message could not be read or interpreted.
#[derive(Debug)]
pub enum MessageError {
    Io(std::io::Error),
    InvalidId(u8),
    TooLarge(u32),
    UnexpectedType { expected: &'static str, got: u8 },
    PayloadTooShort { msg_type: &'static str, need: usize, got: usize },
    IndexMismatch { expected: u32, got: u32 },
}

/// Message IDs of the BitTorrent protocol, numbered 0 to 8 in this order.
#[derive(Debug, Clone, Copy, PartialEq, Eq, Structural)]
pub enum MessageId {
    Choke,
    Unchoke,
    Interested,
    NotInterested,
    Have,
    Bitfield,
    Request,
    Piece,
    Cancel,
}

impl MessageId {
    /// The number of this ID on the wire.
    pub open spec fn code(self) -> u8 {
        match self {
            MessageId::Choke => 0,
            MessageId::Unchoke => 1,
            MessageId::Interested => 2,
            MessageId::NotInterested => 3,
            MessageId::Have => 4,
            MessageId::Bitfield => 5,
            MessageId::Request => 6,
            MessageId::Piece => 7,
            MessageId::Cancel => 8,
        }
    }

    /// The number of this ID on the wire.
    pub fn to_byte(&self) -> (r: u8)
        ensures
            r == self.code(),
    {
        match self {
            MessageId::Choke => 0,
            MessageId::Unchoke => 1,
            MessageId::Interested => 2,
            MessageId::NotInterested => 3,
            MessageId::Have => 4,
            MessageId::Bitfield => 5,
            MessageId::Request => 6,
            MessageId::Piece => 7,
            MessageId::Cancel => 8,
        }
    }

    /// The ID with this number; numbers past 8 are no ID.
    pub fn from_byte(byte: u8) -> (r: Result<Self, MessageError>)
        ensures
            byte <= 8 ==> (r matches Ok(id) && id.code() == byte),
            byte > 8 ==> (r matches Err(MessageError::InvalidId(b)) && b == byte),
    {
        match byte {
            0 => Ok(MessageId::Choke),
            1 => Ok(MessageId::Unchoke),
            2 => Ok(MessageId::Interested),
            3 => Ok(MessageId::NotInterested),
            4 => Ok(MessageId::Have),
            5 => Ok(MessageId::Bitfield),
            6 => Ok(MessageId::Request),
            7 => Ok(MessageId::Piece),
            8 => Ok(MessageId::Cancel),
            other => Err(MessageError::InvalidId(other)),
        }
    }
}

/// The number of a message ID names that ID.
pub proof fn law_message_id_code(id: MessageId, other: MessageId)
    ensures
        id.code() <= 8,
        id.code() == other.code() ==> id == other,
{
}

/// A wire protocol message.
#[derive(Debug, Clone)]
pub struct Message {
    pub id: MessageId,
    pub payload: Vec<u8>,
}

/// The largest message body accepted (16 MiB).
pub const MAX_MESSAGE_SIZE: u32 = 16 * 1024 * 1024;

/// The bytes of a message: its length (ID and payload), its ID, its payload.
pub open spec fn spec_serialize(id: MessageId, payload: Seq<u8>) -> Seq<u8> {
    be32((1 + (payload.len() as u32)) as u32) + seq![id.code()] + payload
}

impl Message {
    /// A message with the given ID and no payload.
    pub fn new(id: MessageId) -> (r: Self)
        ensures
            r.id == id,
            r.payload@ == Seq::<u8>::empty(),
    {
        Message { id, payload: Vec::new() }
    }

    /// A message with the given ID and payload.
    pub fn with_payload(id: MessageId, payload: Vec<u8>) -> (r: Self)
        ensures
            r.id == id,
            r.payload@ == payload@,
    {
        Message { id, payload }
    }

    /// The bytes of this message: `<length:4><id:1><payload>`, the length
    /// counting the ID and the payload.
    pub fn serialize(&self) -> (r: Vec<u8>)
        requires
            (self.payload@.len() as u32) < u32::MAX,
        ensures
            r@ == spec_serialize(self.id, self.payload@),
    {
        let length = 1 + self.payload.len() as u32;
        let mut buf: Vec<u8> = Vec::new();
        push_u32_be(&mut buf, length);
        buf.push(self.id.to_byte());
        let mut i: usize = 0;
        while i < self.payload.len()
            invariant
                i <= self.payload@.len(),
                buf@ == be32(length) + seq![self.id.code()] + self.payload@.take(i as int),
            decreases self.payload@.len() - i,
        {
            buf.push(self.payload[i]);
            assert(self.payload@.take(i + 1) =~= self.payload@.take(i as int).push(self.payload@[i as int]));
            i += 1;
        }
        assert(self.payload@.take(i as int) =~= self.payload@);
        assert(buf@ =~= spec_serialize(self.id, self.payload@));
        buf
    }

    /// A `have` message announcing that we have a piece.
    pub fn have(index: u32) -> (r: Self)
        ensures
            r.id == MessageId::Have,
            r.payload@ == be32(index),
    {
        let mut payload: Vec<u8> = Vec::with_capacity(4);
        push_u32_be(&mut payload, index);
        Self::with_payload(MessageId::Have, payload)
    }

    /// A `request` message asking for a block.
    pub fn request(index: u32, begin: u32, length: u32) -> (r: Self)
        ensures
            r.id == MessageId::Request,
            r.payload@ == be32(index) + be32(begin) + be32(length),
    {
        let mut payload: Vec<u8> = Vec::with_capacity(12);
        push_u32_be(&mut payload, index);
        push_u32_be(&mut payload, begin);
        push_u32_be(&mut payload, length);
        Self::with_payload(MessageId::Request, payload)
    }

    /// The piece index of a `have` message.
    pub fn parse_have(&self) -> (r: Result<u32, MessageError>)
        ensures
            self.id != MessageId::Have ==> (r matches Err(
                MessageError::UnexpectedType { expected, got },
            ) && expected@ == "have"@ && got == self.id.code()),
            self.id == MessageId::Have && self.payload@.len() < 4 ==> (r matches Err(
                MessageError::PayloadTooShort { msg_type, need, got },
            ) && msg_type@ == "have"@ && need == 4 && got == self.payload@.len()),
            self.id == MessageId::Have && self.payload@.len() >= 4 ==> (r matches Ok(i) && i
                == be32_value(self.payload@.subrange(0, 4))),
    {
        if self.id != MessageId::Have {
            return Err(MessageError::UnexpectedType { expected: "have", got: self.id.to_byte() });
        }
        if self.payload.len() < 4 {
            return Err(
                MessageError::PayloadTooShort {
                    msg_type: "have",
                    need: 4,
                    got: self.payload.len(),
                },
            );
        }
        Ok(read_u32_be(self.payload.as_slice(), 0))
    }

    /// Copy the block of a `piece` message for piece `expected_index` into
    /// `buf` at the offset the message gives; returns the block's length.
    pub fn parse_piece(&self, expected_index: u32, buf: &mut [u8]) -> (r: Result<
        usize,
        MessageError,
    >)
        requires
            self.id == MessageId::Piece && self.payload@.len() >= 8 && be32_value(
                self.payload@.subrange(0, 4),
            ) == expected_index ==> be32_value(self.payload@.subrange(4, 8)) + (
            self.payload@.len() - 8) <= usize::MAX,
        ensures
            self.id != MessageId::Piece ==> (r matches Err(
                MessageError::UnexpectedType { expected, got },
            ) && expected@ == "piece"@ && got == self.id.code()),
            self.id == MessageId::Piece && self.payload@.len() < 8 ==> (r matches Err(
                MessageError::PayloadTooShort { msg_type, need, got },
            ) && msg_type@ == "piece"@ && need == 8 && got == self.payload@.len()),
            ({
                let p = self.payload@;
                let index = be32_value(p.subrange(0, 4));
                let begin = be32_value(p.subrange(4, 8)) as int;
                let block = p.subrange(8, p.len() as int);
                self.id == MessageId::Piece && p.len() >= 8 ==> {
                    &&& index != expected_index ==> (r matches Err(
                        MessageError::IndexMismatch { expected, got },
                    ) && expected == expected_index && got == index)
                    &&& index == expected_index && begin + block.len() > old(buf)@.len() ==> (
                    r matches Err(MessageError::PayloadTooShort { msg_type, need, got })
                        && msg_type@ == "piece data"@ && need == begin + block.len() && got
                        == old(buf)@.len())
                    &&& index == expected_index && begin + block.len() <= old(buf)@.len() ==> (
                    r matches Ok(n) && n == block.len() && final(buf)@ == old(buf)@.subrange(
                        0,
                        begin,
                    ) + block + old(buf)@.subrange(begin + block.len(), old(buf)@.len() as int))
                }
            }),
            r is Err ==> final(buf)@ == old(buf)@,
    {
        if self.id != MessageId::Piece {
            return Err(MessageError::UnexpectedType { expected: "piece", got: self.id.to_byte() });
        }
        let plen = self.payload.len();
        if plen < 8 {
            return Err(MessageError::PayloadTooShort { msg_type: "piece", need: 8, got: plen });
        }
        let index = read_u32_be(self.payload.as_slice(), 0);
        let begin = read_u32_be(self.payload.as_slice(), 4) as usize;
        if index != expected_index {
            return Err(MessageError::IndexMismatch { expected: expected_index, got: index });
        }
        let block_len = plen - 8;
        let buf_len = buf.len();
        assert(index == be32_value(self.payload@.subrange(0, 4)));
        if begin + block_len > buf_len {
            return Err(
                MessageError::PayloadTooShort {
                    msg_type: "piece data",
                    need: begin + block_len,
                    got: buf_len,
                },
            );
        }
        let ghost old_buf = buf@;
        let mut i: usize = 0;
        while i < block_len
            invariant
                plen == self.payload@.len(),
                block_len == plen - 8,
                begin + block_len <= buf_len,
                buf_len == buf@.len(),
                i <= block_len,
                buf@.len() == old_buf.len(),
                forall|k: int| 0 <= k < begin ==> buf@[k] == old_buf[k],
                forall|k: int| begin + block_len <= k < buf_len ==> buf@[k] == old_buf[k],
                forall|k: int| begin <= k < begin + i ==> buf@[k] == self.payload@[8 + k - begin],
            decreases block_len - i,
        {
            buf[begin + i] = self.payload[8 + i];
            i += 1;
        }
        assert(buf@ =~= old_buf.subrange(0, begin as int) + self.payload@.subrange(8, plen as int)
            + old_buf.subrange(begin + block_len, buf_len as int));
        Ok(block_len)
    }

    /// The length announced by a frame's 4-byte prefix: `None` for a
    /// keep-alive (length 0), an error past [`MAX_MESSAGE_SIZE`].
    pub fn frame_length(len_buf: [u8; 4]) -> (r: Result<Option<u32>, MessageError>)
        ensures
            ({
                let n = be32_value(len_buf@);
                &&& n == 0 ==> (r matches Ok(None))
                &&& n > MAX_MESSAGE_SIZE ==> (r matches Err(MessageError::TooLarge(m)) && m == n)
                &&& 0 < n <= MAX_MESSAGE_SIZE ==> (r matches Ok(Some(m)) && m == n)
            }),
    {
        let length = read_u32_be(len_buf.as_slice(), 0);
        assert(len_buf@.subrange(0, 4) =~= len_buf@);
        if length == 0 {
            return Ok(None);
        }
        if length > MAX_MESSAGE_SIZE {
            return Err(MessageError::TooLarge(length));
        }
        Ok(Some(length))
    }

    /// The message in a frame body `<id:1><payload>`.
    pub fn from_body(body: &[u8]) -> (r: Result<Self, MessageError>)
        requires
            body@.len() >= 1,
        ensures
            body@[0] > 8 ==> (r matches Err(MessageError::InvalidId(b)) && b == body@[0]),
            body@[0] <= 8 ==> (r matches Ok(m) && m.id.code() == body@[0] && m.payload@
                == body@.subrange(1, body@.len() as int)),
    {
        let id = MessageId::from_byte(body[0])?;
        let payload = vstd::slice::slice_to_vec(&body[1..body.len()]);
        Ok(Message { id, payload })
    }
}

/// The index announced by `have(i)` is what `parse_have` reads back.
pub proof fn law_have_roundtrip(index: u32, payload: Seq<u8>)
    requires
        payload == be32(index),
    ensures
        payload.len() >= 4,
        be32_value(payload.subrange(0, 4)) == index,
{
    crate::wire::law_be32_roundtrip(index);
    assert(payload.subrange(0, 4) =~= payload);
}

/// Reading back a serialized message: the length prefix counts the ID and
/// the payload, and the body that follows holds the ID and the payload.
pub proof fn law_serialize_roundtrip(id: MessageId, payload: Seq<u8>)
    requires
        payload.len() + 1 <= u32::MAX,
    ensures
        ({
            let b = spec_serialize(id, payload);
            &&& b.len() == 5 + payload.len()
            &&& be32_value(b.subrange(0, 4)) == payload.len() + 1
            &&& b[4] == id.code()
            &&& b.subrange(5, b.len() as int) == payload
        }),
{
    let b = spec_serialize(id, payload);
    let n = (1 + (payload.len() as u32)) as u32;
    crate::wire::law_be32_roundtrip(n);
    assert(b.subrange(0, 4) =~= be32(n));
    assert(b.subrange(5, b.len() as int) =~= payload);
}

} // verus!

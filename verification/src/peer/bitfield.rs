//! Bitfield: which pieces a peer has.
//!
//! Each bit stands for one piece: bit 7 of byte 0 is piece 0, bit 6 of byte 0
//! is piece 1, and so on.

use vstd::prelude::*;

verus! {

/// A bitfield telling which pieces a peer has available.
#[derive(Debug, Clone)]
pub struct Bitfield {
    data: Vec<u8>,
    num_pieces: usize,
}

/// The mask of bit `k` counted from the most significant bit.
pub open spec fn bit_mask(k: int) -> u8 {
    (1u8 << ((7 - k) as u8)) as u8
}

/// Whether piece `i` is marked in `data` for a torrent of `n` pieces.
pub open spec fn spec_has_piece(data: Seq<u8>, n: int, i: int) -> bool {
    &&& 0 <= i < n
    &&& i / 8 < data.len()
    &&& data[i / 8] & bit_mask(i % 8) != 0
}

/// The bytes after marking piece `i`; out-of-range indices change nothing.
pub open spec fn spec_set_piece(data: Seq<u8>, n: int, i: int) -> Seq<u8> {
    if 0 <= i < n && i / 8 < data.len() {
        data.update(i / 8, data[i / 8] | bit_mask(i % 8))
    } else {
        data
    }
}

/// The bytes after unmarking piece `i`; out-of-range indices change nothing.
pub open spec fn spec_clear_piece(data: Seq<u8>, n: int, i: int) -> Seq<u8> {
    if 0 <= i < n && i / 8 < data.len() {
        data.update(i / 8, data[i / 8] & !bit_mask(i % 8))
    } else {
        data
    }
}

/// The number of marked pieces below `k`.
pub open spec fn spec_count(data: Seq<u8>, n: int, k: int) -> nat
    decreases k,
{
    if k <= 0 {
        0
    } else {
        spec_count(data, n, k - 1) + if spec_has_piece(data, n, k - 1) {
            1nat
        } else {
            0nat
        }
    }
}

proof fn lemma_mask_bits(b: u8, k: int, k2: int)
    requires
        0 <= k < 8,
        0 <= k2 < 8,
    ensures
        ((b | bit_mask(k)) & bit_mask(k2) != 0) == ((b & bit_mask(k2) != 0) || k == k2),
        ((b & !bit_mask(k)) & bit_mask(k2) != 0) == ((b & bit_mask(k2) != 0) && k != k2),
{
    let s: u8 = (7 - k) as u8;
    let s2: u8 = (7 - k2) as u8;
    assert(((b | (1u8 << s) as u8) & (1u8 << s2) as u8 != 0) == ((b & (1u8 << s2) as u8 != 0) || s
        == s2)) by (bit_vector)
        requires
            s < 8,
            s2 < 8,
    ;
    assert(((b & !((1u8 << s) as u8)) & (1u8 << s2) as u8 != 0) == ((b & (1u8 << s2) as u8 != 0)
        && s != s2)) by (bit_vector)
        requires
            s < 8,
            s2 < 8,
    ;
}

/// Marking piece `i` makes it present and leaves every other piece as it
/// was; an index past the pieces or past the bytes changes nothing.
pub proof fn law_set_piece(data: Seq<u8>, n: int, i: int, j: int)
    ensures
        spec_has_piece(spec_set_piece(data, n, i), n, j) == (spec_has_piece(data, n, j) || (j == i
            && 0 <= i < n && i / 8 < data.len())),
{
    if 0 <= i < n && i / 8 < data.len() && 0 <= j < n && j / 8 < data.len() {
        lemma_mask_bits(data[j / 8], i % 8, j % 8);
        if i / 8 == j / 8 && i % 8 == j % 8 {
            assert(i == j);
        }
    }
}

/// Unmarking piece `i` makes it absent and leaves every other piece as it
/// was.
pub proof fn law_clear_piece(data: Seq<u8>, n: int, i: int, j: int)
    ensures
        spec_has_piece(spec_clear_piece(data, n, i), n, j) == (spec_has_piece(data, n, j) && j
            != i),
{
    if 0 <= i < n && i / 8 < data.len() && 0 <= j < n && j / 8 < data.len() {
        lemma_mask_bits(data[j / 8], i % 8, j % 8);
        if i / 8 == j / 8 && i % 8 == j % 8 {
            assert(i == j);
        }
    }
}

/// The count of marked pieces never passes the number of pieces considered.
pub proof fn law_count_bounded(data: Seq<u8>, n: int, k: int)
    ensures
        spec_count(data, n, k) <= if k > 0 {
            k
        } else {
            0
        },
    decreases k,
{
    if k > 0 {
        law_count_bounded(data, n, k - 1);
    }
}

impl Bitfield {
    /// The bytes of the bitfield.
    pub closed spec fn bytes(self) -> Seq<u8> {
        self.data@
    }

    /// The number of pieces of the torrent.
    pub closed spec fn pieces(self) -> int {
        self.num_pieces as int
    }

    /// Whether piece `i` is marked.
    pub open spec fn has(self, i: int) -> bool {
        spec_has_piece(self.bytes(), self.pieces(), i)
    }

    /// An empty bitfield for `num_pieces` pieces: one bit per piece, rounded
    /// up to whole bytes, all clear.
    pub fn new(num_pieces: usize) -> (r: Self)
        requires
            num_pieces + 7 <= usize::MAX,
        ensures
            r.pieces() == num_pieces,
            r.bytes() == Seq::new(((num_pieces + 7) / 8) as nat, |i: int| 0u8),
            forall|i: int| !r.has(i),
    {
        let num_bytes = (num_pieces + 7) / 8;
        let r = Bitfield { data: vec![0u8; num_bytes], num_pieces };
        assert(r.data@ =~= Seq::new(((num_pieces + 7) / 8) as nat, |i: int| 0u8));
        assert forall|i: int| !r.has(i) by {
            if 0 <= i < num_pieces && i / 8 < r.data@.len() {
                let k = i % 8;
                assert(r.data@[i / 8] == 0);
                assert(0u8 & bit_mask(k) == 0) by (bit_vector);
            }
        }
        r
    }

    /// A bitfield from the raw bytes received from a peer.
    pub fn from_bytes(data: Vec<u8>, num_pieces: usize) -> (r: Self)
        ensures
            r.bytes() == data@,
            r.pieces() == num_pieces,
    {
        Bitfield { data, num_pieces }
    }

    /// The raw bytes.
    pub fn as_bytes(&self) -> (r: &[u8])
        ensures
            r@ == self.bytes(),
    {
        self.data.as_slice()
    }

    /// The number of pieces of the torrent.
    pub fn num_pieces(&self) -> (r: usize)
        ensures
            r == self.pieces(),
    {
        self.num_pieces
    }

    /// Whether the peer has a piece; false for an index past the pieces or
    /// past the bytes.
    pub fn has_piece(&self, index: usize) -> (r: bool)
        ensures
            r == self.has(index as int),
    {
        if index >= self.num_pieces {
            return false;
        }
        let byte_index = index / 8;
        let bit_index = index % 8;
        if byte_index >= self.data.len() {
            return false;
        }
        let mask: u8 = 1 << (7 - bit_index as u8);
        self.data[byte_index] & mask != 0
    }

    /// Mark a piece as available; an index past the pieces or past the bytes
    /// changes nothing.
    pub fn set_piece(&mut self, index: usize)
        ensures
            final(self).pieces() == old(self).pieces(),
            final(self).bytes() == spec_set_piece(old(self).bytes(), old(self).pieces(), index as int),
    {
        if index >= self.num_pieces {
            return;
        }
        let byte_index = index / 8;
        let bit_index = index % 8;
        if byte_index < self.data.len() {
            let mask: u8 = 1 << (7 - bit_index as u8);
            let b = self.data[byte_index] | mask;
            self.data.set(byte_index, b);
        }
    }

    /// Mark a piece as unavailable; an index past the pieces or past the
    /// bytes changes nothing.
    pub fn clear_piece(&mut self, index: usize)
        ensures
            final(self).pieces() == old(self).pieces(),
            final(self).bytes() == spec_clear_piece(old(self).bytes(), old(self).pieces(), index as int),
    {
        if index >= self.num_pieces {
            return;
        }
        let byte_index = index / 8;
        let bit_index = index % 8;
        if byte_index < self.data.len() {
            let mask: u8 = 1 << (7 - bit_index as u8);
            let b = self.data[byte_index] & !mask;
            self.data.set(byte_index, b);
        }
    }

    /// The number of pieces the peer has.
    pub fn count(&self) -> (r: usize)
        ensures
            r == spec_count(self.bytes(), self.pieces(), self.pieces()),
    {
        let mut count: usize = 0;
        let mut i: usize = 0;
        while i < self.num_pieces
            invariant
                i <= self.num_pieces,
                count == spec_count(self.bytes(), self.pieces(), i as int),
                count <= i,
            decreases self.num_pieces - i,
        {
            if self.has_piece(i) {
                count += 1;
            }
            i += 1;
        }
        count
    }
}

} // verus!

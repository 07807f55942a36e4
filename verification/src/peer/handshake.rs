//! The BitTorrent handshake:
//! `<pstrlen:1><pstr:19><reserved:8><info_hash:20><peer_id:20>`, 68 bytes.

use vstd::prelude::*;

verus! {

/// Why a handshake failed.
#[derive(Debug)]
pub enum HandshakeError {
    Io(std::io::Error),
    InvalidProtocolLength(u8),
    UnknownProtocol,
    InfoHashMismatch,
}

/// What a peer's handshake tells.
#[derive(Debug, Clone)]
pub struct HandshakeResult {
    pub peer_id: [u8; 20],
    pub info_hash: [u8; 20],
}

/// The protocol string `BitTorrent protocol`.
pub open spec fn protocol() -> Seq<u8> {
    seq![66u8, 105, 116, 84, 111, 114, 114, 101, 110, 116, 32, 112, 114, 111, 116, 111, 99, 111, 108]
}

/// The 68 bytes of a handshake, the reserved bytes zero.
pub open spec fn spec_handshake(info_hash: Seq<u8>, peer_id: Seq<u8>) -> Seq<u8> {
    seq![19u8] + protocol() + Seq::new(8, |i: int| 0u8) + info_hash + peer_id
}

/// What the 67 bytes after the length byte of a handshake tell: the
/// protocol must match; the info hash and peer id follow the reserved bytes.
pub open spec fn spec_parse_rest(rest: Seq<u8>) -> Option<(Seq<u8>, Seq<u8>)> {
    if rest.subrange(0, 19) != protocol() {
        None
    } else {
        Some((rest.subrange(27, 47), rest.subrange(47, 67)))
    }
}

fn protocol_bytes() -> (r: [u8; 19])
    ensures
        r@ == protocol(),
{
    let r: [u8; 19] = [66, 105, 116, 84, 111, 114, 114, 101, 110, 116, 32, 112, 114, 111, 116, 111, 99, 111, 108];
    assert(r@ =~= protocol());
    r
}

/// Build the 68-byte handshake: protocol length, protocol string, eight
/// zero reserved bytes, info hash, peer id.
pub fn build_handshake(info_hash: &[u8; 20], peer_id: &[u8; 20]) -> (r: [u8; 68])
    ensures
        r@ == spec_handshake(info_hash@, peer_id@),
{
    let proto = protocol_bytes();
    let mut buf = [0u8; 68];
    buf[0] = 19;
    let mut i: usize = 0;
    while i < 19
        invariant
            i <= 19,
            proto@ == protocol(),
            buf@[0] == 19u8,
            forall|k: int| 1 <= k < 1 + i ==> buf@[k] == proto@[k - 1],
            forall|k: int| 20 <= k < 68 ==> buf@[k] == 0u8,
        decreases 19 - i,
    {
        buf[1 + i] = proto[i];
        i += 1;
    }
    let mut j: usize = 0;
    while j < 20
        invariant
            j <= 20,
            proto@ == protocol(),
            buf@[0] == 19u8,
            forall|k: int| 1 <= k < 20 ==> buf@[k] == proto@[k - 1],
            forall|k: int| 20 <= k < 28 ==> buf@[k] == 0u8,
            forall|k: int| 28 <= k < 28 + j ==> buf@[k] == info_hash@[k - 28],
            forall|k: int| 48 <= k < 48 + j ==> buf@[k] == peer_id@[k - 48],
            forall|k: int| 28 + j <= k < 48 ==> buf@[k] == 0u8,
        decreases 20 - j,
    {
        buf[28 + j] = info_hash[j];
        buf[48 + j] = peer_id[j];
        j += 1;
    }
    assert(buf@ =~= spec_handshake(info_hash@, peer_id@));
    buf
}

/// Check the first byte of a peer's handshake, the protocol length.
pub fn check_protocol_length(pstrlen: u8) -> (r: Result<(), HandshakeError>)
    ensures
        pstrlen == 19 ==> r is Ok,
        pstrlen != 19 ==> (r matches Err(HandshakeError::InvalidProtocolLength(b)) && b == pstrlen),
{
    if pstrlen != 19 {
        return Err(HandshakeError::InvalidProtocolLength(pstrlen));
    }
    Ok(())
}

/// Read the 67 bytes that follow the protocol length: check the protocol
/// string and take the info hash and the peer id.
pub fn parse_handshake_rest(rest: &[u8; 67]) -> (r: Result<HandshakeResult, HandshakeError>)
    ensures
        match spec_parse_rest(rest@) {
            Some((ih, pid)) => r matches Ok(x) && x.info_hash@ == ih && x.peer_id@ == pid,
            None => r matches Err(HandshakeError::UnknownProtocol),
        },
{
    let proto = protocol_bytes();
    let mut i: usize = 0;
    while i < 19
        invariant
            i <= 19,
            proto@ == protocol(),
            forall|k: int| 0 <= k < i ==> rest@[k] == proto@[k],
        decreases 19 - i,
    {
        if rest[i] != proto[i] {
            assert(rest@.subrange(0, 19)[i as int] != protocol()[i as int]);
            return Err(HandshakeError::UnknownProtocol);
        }
        i += 1;
    }
    assert(rest@.subrange(0, 19) =~= protocol());
    let mut info_hash = [0u8; 20];
    let mut peer_id = [0u8; 20];
    let mut j: usize = 0;
    while j < 20
        invariant
            j <= 20,
            forall|k: int| 0 <= k < j ==> info_hash@[k] == rest@[27 + k],
            forall|k: int| 0 <= k < j ==> peer_id@[k] == rest@[47 + k],
        decreases 20 - j,
    {
        info_hash[j] = rest[27 + j];
        peer_id[j] = rest[47 + j];
        j += 1;
    }
    assert(info_hash@ =~= rest@.subrange(27, 47));
    assert(peer_id@ =~= rest@.subrange(47, 67));
    Ok(HandshakeResult { peer_id, info_hash })
}

/// Accept the peer's handshake only for the torrent we asked for.
pub fn check_info_hash(result: HandshakeResult, expected: &[u8; 20]) -> (r: Result<
    HandshakeResult,
    HandshakeError,
>)
    ensures
        result.info_hash@ == expected@ ==> (r matches Ok(x) && x.info_hash@ == result.info_hash@
            && x.peer_id@ == result.peer_id@),
        result.info_hash@ != expected@ ==> r matches Err(HandshakeError::InfoHashMismatch),
{
    let mut i: usize = 0;
    while i < 20
        invariant
            i <= 20,
            forall|k: int| 0 <= k < i ==> result.info_hash@[k] == expected@[k],
        decreases 20 - i,
    {
        if result.info_hash[i] != expected[i] {
            return Err(HandshakeError::InfoHashMismatch);
        }
        i += 1;
    }
    assert(result.info_hash@ =~= expected@);
    Ok(result)
}

/// A handshake read back gives the protocol length 19 and the info hash and
/// peer id it was built from.
pub proof fn law_handshake_roundtrip(info_hash: Seq<u8>, peer_id: Seq<u8>)
    requires
        info_hash.len() == 20,
        peer_id.len() == 20,
    ensures
        spec_handshake(info_hash, peer_id).len() == 68,
        spec_handshake(info_hash, peer_id)[0] == 19,
        spec_parse_rest(spec_handshake(info_hash, peer_id).subrange(1, 68)) == Some(
            (info_hash, peer_id),
        ),
{
    let h = spec_handshake(info_hash, peer_id);
    let rest = h.subrange(1, 68);
    assert(rest.subrange(0, 19) =~= protocol());
    assert(rest.subrange(27, 47) =~= info_hash);
    assert(rest.subrange(47, 67) =~= peer_id);
}

} // verus!

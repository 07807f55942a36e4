//! UDP tracker protocol (BEP 15): the packets of the connect and announce
//! exchanges and what the tracker's answers mean.

use super::{AnnounceResponse, peers_model};
use crate::num::{parse_unsigned, spec_parse_unsigned};
use crate::peer::PeerAddr;
use crate::text::{chars_eq, chars_of, find_char, find_char_exec, string_from_chars};
use crate::wire::{
    be16, be16_value, be32, be32_value, be64, be64_value, push_u16_be, push_u32_be, push_u64_be,
    read_u16_be, read_u32_be, read_u64_be,
};
use vstd::prelude::*;
use vstd::utf8::{decode_utf8, encode_utf8, valid_utf8};

verus! {

/// Why an announce over UDP failed.
#[derive(Debug)]
pub enum UdpTrackerError {
    InvalidUrl(String),
    Socket(std::io::Error),
    TrackerError(String),
    InvalidResponse(String),
    Timeout,
    ConnectionFailed,
}

/// `udp://`.
pub open spec fn udp_scheme() -> Seq<char> {
    seq!['u', 'd', 'p', ':', '/', '/']
}

/// The last position below `end` that holds `c`.
pub open spec fn rfind_char(s: Seq<char>, end: int, c: char) -> Option<int>
    decreases end,
{
    if end <= 0 {
        None
    } else if s[end - 1] == c {
        Some(end - 1)
    } else {
        rfind_char(s, end - 1, c)
    }
}

/// How a UDP tracker URL can be refused.
pub enum UdpUrlFailure {
    NotUdp,
    InvalidPort,
    MissingPort,
}

/// What `udp://host:port[/path]` reads as: the host (everything before the
/// last `:` of the part before the first `/`) and the port.
pub open spec fn spec_parse_udp_url(url: Seq<char>) -> Result<(Seq<char>, u16), UdpUrlFailure> {
    if url.len() < 6 || url.subrange(0, 6) != udp_scheme() {
        Err(UdpUrlFailure::NotUdp)
    } else {
        let end = find_char(url, 6, '/');
        match rfind_char(url.subrange(6, end), end - 6, ':') {
            None => Err(UdpUrlFailure::MissingPort),
            Some(c) => match spec_parse_unsigned(
                encode_utf8(url.subrange(6 + c + 1, end)),
                65535,
            ) {
                None => Err(UdpUrlFailure::InvalidPort),
                Some(p) => Ok((url.subrange(6, 6 + c), p as u16)),
            },
        }
    }
}

/// The message each refusal is reported with.
pub open spec fn url_failure_message(f: UdpUrlFailure) -> Seq<char> {
    match f {
        UdpUrlFailure::NotUdp => "URL must start with udp://"@,
        UdpUrlFailure::InvalidPort => "Invalid port"@,
        UdpUrlFailure::MissingPort => "Missing port number"@,
    }
}

/// The last position below `end` that holds `c`.
fn rfind_char_exec(s: &[char], end: usize, c: char) -> (r: Option<usize>)
    requires
        end <= s@.len(),
    ensures
        match rfind_char(s@, end as int, c) {
            Some(k) => r == Some(k as usize) && 0 <= k < end,
            None => r is None,
        },
{
    let mut e = end;
    while e > 0
        invariant
            e <= end <= s@.len(),
            rfind_char(s@, end as int, c) == rfind_char(s@, e as int, c),
        decreases e,
    {
        if s[e - 1] == c {
            return Some(e - 1);
        }
        e -= 1;
    }
    None
}

/// Parse a UDP tracker URL, `udp://host:port` or `udp://host:port/path`,
/// into its host and port.
pub fn parse_udp_url(url: &str) -> (r: Result<(String, u16), UdpTrackerError>)
    ensures
        match spec_parse_udp_url(url@) {
            Ok((host, port)) => r matches Ok((h, p)) && h@ == host && p == port,
            Err(f) => r matches Err(UdpTrackerError::InvalidUrl(m)) && m@ == url_failure_message(f),
        },
{
    let c = chars_of(url);
    let scheme: [char; 6] = ['u', 'd', 'p', ':', '/', '/'];
    assert(scheme@ =~= udp_scheme());
    if c.len() < 6 || !chars_eq(&c[0..6], scheme.as_slice()) {
        return Err(UdpTrackerError::InvalidUrl("URL must start with udp://".to_owned()));
    }
    assert(c@.subrange(0, 6) =~= udp_scheme());
    let end = find_char_exec(c.as_slice(), 6, '/');
    let host_port = &c[6..end];
    match rfind_char_exec(host_port, end - 6, ':') {
        None => Err(UdpTrackerError::InvalidUrl("Missing port number".to_owned())),
        Some(colon) => {
            assert(host_port@.subrange(colon + 1, end - 6) =~= c@.subrange(6 + colon + 1, end as int));
            assert(host_port@.subrange(0, colon as int) =~= c@.subrange(6, 6 + colon));
            let port_chars = vstd::slice::slice_to_vec(&host_port[colon + 1..end - 6]);
            let port_str = string_from_chars(port_chars.as_slice());
            match parse_unsigned(port_str.as_str().as_bytes(), 65535) {
                None => Err(UdpTrackerError::InvalidUrl("Invalid port".to_owned())),
                Some(port) => {
                    let host_chars = vstd::slice::slice_to_vec(&host_port[0..colon]);
                    Ok((string_from_chars(host_chars.as_slice()), port as u16))
                },
            }
        },
    }
}

/// The protocol id that opens a connect request.
pub const PROTOCOL_ID: u64 = 0x41727101980;

/// The 16 bytes of a connect request: protocol id, action 0 (connect),
/// transaction id.
pub open spec fn spec_connect_request(transaction_id: u32) -> Seq<u8> {
    be64(PROTOCOL_ID) + be32(0) + be32(transaction_id)
}

/// Build a connect request.
pub fn build_connect_request(transaction_id: u32) -> (r: Vec<u8>)
    ensures
        r@ == spec_connect_request(transaction_id),
{
    let mut req: Vec<u8> = Vec::with_capacity(16);
    push_u64_be(&mut req, PROTOCOL_ID);
    push_u32_be(&mut req, 0);
    push_u32_be(&mut req, transaction_id);
    req
}

/// Read the answer to a connect request: action 0 and our transaction id,
/// then the connection id.
pub fn parse_connect_response(resp: &[u8; 16], transaction_id: u32) -> (r: Result<
    u64,
    UdpTrackerError,
>)
    ensures
        ({
            let action = be32_value(resp@.subrange(0, 4));
            let txid = be32_value(resp@.subrange(4, 8));
            &&& action != 0 ==> (r matches Err(UdpTrackerError::ConnectionFailed))
            &&& action == 0 && txid != transaction_id ==> (r matches Err(
                UdpTrackerError::InvalidResponse(m),
            ) && m@ == "Connect transaction ID mismatch"@)
            &&& action == 0 && txid == transaction_id ==> (r matches Ok(c) && c == be64_value(
                resp@.subrange(8, 16),
            ))
        }),
{
    let action = read_u32_be(resp.as_slice(), 0);
    let resp_txid = read_u32_be(resp.as_slice(), 4);
    let connection_id = read_u64_be(resp.as_slice(), 8);
    if action != 0 {
        return Err(UdpTrackerError::ConnectionFailed);
    }
    if resp_txid != transaction_id {
        return Err(UdpTrackerError::InvalidResponse("Connect transaction ID mismatch".to_owned()));
    }
    Ok(connection_id)
}

/// The 98 bytes of an announce request: connection id, action 1 (announce),
/// transaction id, info hash, peer id, downloaded, left, uploaded, event 0,
/// address 0, key, `num_want` -1 and port.
pub open spec fn spec_announce_request(
    connection_id: u64,
    transaction_id: u32,
    info_hash: Seq<u8>,
    peer_id: Seq<u8>,
    downloaded: u64,
    left: u64,
    uploaded: u64,
    key: u32,
    port: u16,
) -> Seq<u8> {
    be64(connection_id) + be32(1) + be32(transaction_id) + info_hash + peer_id + be64(downloaded)
        + be64(left) + be64(uploaded) + be32(0) + be32(0) + be32(key) + be32(0xffff_ffff) + be16(
        port,
    )
}

fn push_bytes20(v: &mut Vec<u8>, b: &[u8; 20])
    ensures
        final(v)@ == old(v)@ + b@,
{
    let ghost start = v@;
    let mut i: usize = 0;
    while i < 20
        invariant
            i <= 20,
            v@ == start + b@.take(i as int),
        decreases 20 - i,
    {
        v.push(b[i]);
        assert(v@ =~= start + b@.take(i + 1));
        i += 1;
    }
    assert(b@.take(20) =~= b@);
}

/// Build an announce request.
pub fn build_announce_request(
    connection_id: u64,
    transaction_id: u32,
    info_hash: &[u8; 20],
    peer_id: &[u8; 20],
    downloaded: u64,
    left: u64,
    uploaded: u64,
    key: u32,
    port: u16,
) -> (r: Vec<u8>)
    ensures
        r@ == spec_announce_request(
            connection_id,
            transaction_id,
            info_hash@,
            peer_id@,
            downloaded,
            left,
            uploaded,
            key,
            port,
        ),
{
    let mut req: Vec<u8> = Vec::with_capacity(98);
    push_u64_be(&mut req, connection_id);
    push_u32_be(&mut req, 1);
    push_u32_be(&mut req, transaction_id);
    push_bytes20(&mut req, info_hash);
    push_bytes20(&mut req, peer_id);
    push_u64_be(&mut req, downloaded);
    push_u64_be(&mut req, left);
    push_u64_be(&mut req, uploaded);
    push_u32_be(&mut req, 0);
    push_u32_be(&mut req, 0);
    push_u32_be(&mut req, key);
    push_u32_be(&mut req, 0xffff_ffff);
    push_u16_be(&mut req, port);
    req
}

/// The text that `String::from_utf8_lossy` makes of a byte string.
pub uninterp spec fn utf8_lossy(b: Seq<u8>) -> Seq<char>;

/// `String::from_utf8_lossy(..).to_string()`: the bytes as text, each
/// invalid sequence replaced. Stated: the result is `utf8_lossy` of the
/// bytes, and valid UTF-8 is decoded as it stands.
#[verifier::external_body]
fn lossy_text(b: &[u8]) -> (r: String)
    ensures
        r@ == utf8_lossy(b@),
        valid_utf8(b@) ==> r@ == decode_utf8(b@),
{
    String::from_utf8_lossy(b).to_string()
}

/// The peers of an announce answer: one per whole 6-byte record, in order,
/// leaving out those whose port is 0; bytes after the last whole record
/// are ignored.
pub open spec fn spec_udp_peers(d: Seq<u8>) -> Seq<(Seq<u8>, u16)>
    decreases d.len(),
{
    if d.len() < 6 {
        Seq::empty()
    } else {
        let k = (d.len() / 6 - 1) as int;
        let rest = spec_udp_peers(d.subrange(0, 6 * k));
        let port = be16_value(d.subrange(6 * k + 4, 6 * k + 6));
        if port != 0 {
            rest.push((d.subrange(6 * k, 6 * k + 4), port))
        } else {
            rest
        }
    }
}

/// How the answer to an announce request is read.
pub open spec fn spec_announce_answer(
    resp: Seq<u8>,
    transaction_id: u32,
    r: Result<AnnounceResponse, UdpTrackerError>,
) -> bool {
    let action = be32_value(resp.subrange(0, 4));
    let txid = be32_value(resp.subrange(4, 8));
    if resp.len() < 20 {
        r matches Err(UdpTrackerError::InvalidResponse(m)) && m@ == "Announce response too short"@
    } else if action == 3 {
        r matches Err(UdpTrackerError::TrackerError(m)) && m@ == utf8_lossy(
            resp.subrange(8, resp.len() as int),
        )
    } else if action != 1 {
        r matches Err(UdpTrackerError::InvalidResponse(m)) && m@
            == "Unexpected action in announce response"@
    } else if txid != transaction_id {
        r matches Err(UdpTrackerError::InvalidResponse(m)) && m@
            == "Announce transaction ID mismatch"@
    } else {
        r matches Ok(a) && a.interval == be32_value(resp.subrange(8, 12)) as u64 && peers_model(
            a.peers@,
        ) == spec_udp_peers(resp.subrange(20, resp.len() as int))
    }
}

proof fn lemma_udp_peers_prefix(d: Seq<u8>, i: int)
    requires
        0 <= i < d.len() / 6,
    ensures
        d.subrange(0, 6 * i + 6).subrange(0, 6 * i) == d.subrange(0, 6 * i),
        ({
            let e = d.subrange(0, 6 * i + 6);
            let port = be16_value(d.subrange(6 * i + 4, 6 * i + 6));
            spec_udp_peers(e) == if port != 0 {
                spec_udp_peers(d.subrange(0, 6 * i)).push((d.subrange(6 * i, 6 * i + 4), port))
            } else {
                spec_udp_peers(d.subrange(0, 6 * i))
            }
        }),
{
    let e = d.subrange(0, 6 * i + 6);
    assert(e.len() / 6 - 1 == i);
    assert(e.subrange(0, 6 * i) =~= d.subrange(0, 6 * i));
    assert(e.subrange(6 * i + 4, 6 * i + 6) =~= d.subrange(6 * i + 4, 6 * i + 6));
    assert(e.subrange(6 * i, 6 * i + 4) =~= d.subrange(6 * i, 6 * i + 4));
}

proof fn lemma_udp_peers_whole(d: Seq<u8>)
    ensures
        spec_udp_peers(d) == spec_udp_peers(d.subrange(0, (6 * (d.len() / 6)) as int)),
{
    let m = d.subrange(0, (6 * (d.len() / 6)) as int);
    if d.len() >= 6 {
        let k = (d.len() / 6 - 1) as int;
        assert(m.len() / 6 - 1 == k);
        assert(m.subrange(0, 6 * k) =~= d.subrange(0, 6 * k));
        assert(m.subrange(6 * k + 4, 6 * k + 6) =~= d.subrange(6 * k + 4, 6 * k + 6));
        assert(m.subrange(6 * k, 6 * k + 4) =~= d.subrange(6 * k, 6 * k + 4));
    }
}

/// Read the answer to an announce request.
pub fn parse_announce_response(resp: &[u8], transaction_id: u32) -> (r: Result<
    AnnounceResponse,
    UdpTrackerError,
>)
    ensures
        spec_announce_answer(resp@, transaction_id, r),
{
    let n = resp.len();
    if n < 20 {
        return Err(UdpTrackerError::InvalidResponse("Announce response too short".to_owned()));
    }
    let action = read_u32_be(resp, 0);
    let resp_txid = read_u32_be(resp, 4);
    if action == 3 {
        return Err(UdpTrackerError::TrackerError(lossy_text(&resp[8..n])));
    }
    if action != 1 {
        return Err(
            UdpTrackerError::InvalidResponse("Unexpected action in announce response".to_owned()),
        );
    }
    if resp_txid != transaction_id {
        return Err(UdpTrackerError::InvalidResponse("Announce transaction ID mismatch".to_owned()));
    }
    let interval = read_u32_be(resp, 8) as u64;
    let peer_data = &resp[20..n];
    let ghost d = peer_data@;
    let count = peer_data.len() / 6;
    let mut peers: Vec<PeerAddr> = Vec::new();
    let mut i: usize = 0;
    while i < count
        invariant
            peer_data@ == d,
            d.len() == n - 20,
            count == d.len() / 6,
            i <= count,
            peers_model(peers@) == spec_udp_peers(d.subrange(0, 6 * i)),
        decreases count - i,
    {
        proof {
            assert(6 * i + 6 <= d.len()) by (nonlinear_arith)
                requires
                    i < count,
                    count == d.len() / 6,
            ;
            lemma_udp_peers_prefix(d, i as int);
        }
        let at = 6 * i;
        let port = read_u16_be(peer_data, at + 4);
        if port != 0 {
            let ip: [u8; 4] = [peer_data[at], peer_data[at + 1], peer_data[at + 2], peer_data[at + 3]];
            let p = PeerAddr { ip, port };
            let ghost before = peers_model(peers@);
            peers.push(p);
            proof {
                assert(ip@ =~= d.subrange(6 * i, 6 * i + 4));
                assert(peers_model(peers@) =~= before.push(super::peer_model(p)));
            }
        }
        i += 1;
    }
    proof {
        lemma_udp_peers_whole(d);
    }
    Ok(AnnounceResponse { interval, peers })
}

/// The records of a peer list: 4 address bytes and a big-endian port per
/// 6 bytes.
pub open spec fn peer_records(d: Seq<u8>) -> Seq<(Seq<u8>, u16)> {
    Seq::new(
        (d.len() / 6) as nat,
        |k: int| (d.subrange(6 * k, 6 * k + 4), be16_value(d.subrange(6 * k + 4, 6 * k + 6))),
    )
}

proof fn lemma_udp_peers_nonzero(d: Seq<u8>)
    requires
        forall|k: int|
            0 <= k < d.len() / 6 ==> be16_value(#[trigger] d.subrange(6 * k + 4, 6 * k + 6)) != 0,
    ensures
        spec_udp_peers(d) == peer_records(d),
    decreases d.len(),
{
    if d.len() >= 6 {
        let k = (d.len() / 6 - 1) as int;
        let e = d.subrange(0, 6 * k);
        assert(e.len() / 6 == k);
        assert forall|j: int| 0 <= j < e.len() / 6 implies be16_value(
            #[trigger] e.subrange(6 * j + 4, 6 * j + 6),
        ) != 0 by {
            assert(e.subrange(6 * j + 4, 6 * j + 6) =~= d.subrange(6 * j + 4, 6 * j + 6));
        }
        lemma_udp_peers_nonzero(e);
        assert(be16_value(d.subrange(6 * k + 4, 6 * k + 6)) != 0);
        assert forall|j: int| 0 <= j < k implies #[trigger] peer_records(e)[j] == peer_records(d)[j] by {
            assert(e.subrange(6 * j, 6 * j + 4) =~= d.subrange(6 * j, 6 * j + 4));
            assert(e.subrange(6 * j + 4, 6 * j + 6) =~= d.subrange(6 * j + 4, 6 * j + 6));
        }
        assert(spec_udp_peers(d) =~= peer_records(d));
    } else {
        assert(peer_records(d) =~= Seq::<(Seq<u8>, u16)>::empty());
    }
}

/// When every record after the 20-byte header of an accepted announce
/// answer has a port other than 0, each whole record gives one peer, in
/// order: its 4 address bytes and its big-endian port.
pub proof fn law_udp_peers_all_records(
    resp: Seq<u8>,
    transaction_id: u32,
    r: Result<AnnounceResponse, UdpTrackerError>,
)
    requires
        spec_announce_answer(resp, transaction_id, r),
        r is Ok,
        forall|k: int|
            0 <= k < (resp.len() - 20) / 6 ==> be16_value(
                #[trigger] resp.subrange(20 + 6 * k + 4, 20 + 6 * k + 6),
            ) != 0,
    ensures
        resp.len() >= 20,
        r->Ok_0.peers@.len() == (resp.len() - 20) / 6,
        forall|k: int|
            0 <= k < (resp.len() - 20) / 6 ==> (#[trigger] r->Ok_0.peers@[k]).ip@ == resp.subrange(
                20 + 6 * k,
                20 + 6 * k + 4,
            ) && r->Ok_0.peers@[k].port == be16_value(resp.subrange(20 + 6 * k + 4, 20 + 6 * k + 6)),
{
    let d = resp.subrange(20, resp.len() as int);
    assert forall|k: int| 0 <= k < d.len() / 6 implies be16_value(
        #[trigger] d.subrange(6 * k + 4, 6 * k + 6),
    ) != 0 by {
        assert(d.subrange(6 * k + 4, 6 * k + 6) =~= resp.subrange(20 + 6 * k + 4, 20 + 6 * k + 6));
    }
    lemma_udp_peers_nonzero(d);
    let ps = r->Ok_0.peers@;
    assert(peers_model(ps).len() == ps.len());
    assert forall|k: int| 0 <= k < (resp.len() - 20) / 6 implies (#[trigger] ps[k]).ip@ == resp.subrange(
        20 + 6 * k,
        20 + 6 * k + 4,
    ) && ps[k].port == be16_value(resp.subrange(20 + 6 * k + 4, 20 + 6 * k + 6)) by {
        assert(peers_model(ps)[k] == peer_records(d)[k]);
        assert(d.subrange(6 * k, 6 * k + 4) =~= resp.subrange(20 + 6 * k, 20 + 6 * k + 4));
        assert(d.subrange(6 * k + 4, 6 * k + 6) =~= resp.subrange(20 + 6 * k + 4, 20 + 6 * k + 6));
    }
}

} // verus!

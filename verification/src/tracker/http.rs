//! HTTP tracker client: the announce URL, and the bencoded answer with its
//! compact peer list.

use super::{AnnounceResponse, peers_model};
use crate::bencode::decoder::{DecodeError, decode, spec_decode};
use crate::bencode::ValueModel;
use crate::torrent::metainfo::{key, opt_bytes, opt_int};
use crate::peer::PeerAddr;
use crate::text::{push_decimal, push_str, spec_decimal, string_from_chars};
use crate::wire::{be16_value, read_u16_be};
use vstd::prelude::*;

verus! {

/// Why an announce failed.
#[derive(Debug)]
pub enum TrackerError {
    UrlBuild(String),
    Http(reqwest::Error),
    Decode(DecodeError),
    TrackerFailure(String),
    MalformedPeers(usize),
    MissingField(&'static str),
}

/// `reqwest::Error`, the error of an HTTP request.
#[verifier::external_type_specification]
#[verifier::external_body]
pub struct ExReqwestError(reqwest::Error);

/// The peers of a compact peer list: 4 address bytes and a big-endian port
/// per 6 bytes.
pub open spec fn spec_compact_peers(d: Seq<u8>) -> Seq<(Seq<u8>, u16)> {
    Seq::new(
        (d.len() / 6) as nat,
        |i: int| (d.subrange(6 * i, 6 * i + 4), be16_value(d.subrange(6 * i + 4, 6 * i + 6))),
    )
}

/// Parse a compact peer list: each peer is 6 bytes, 4 of IPv4 address and 2
/// of port.
pub fn unmarshal_peers(data: &[u8]) -> (r: Result<Vec<PeerAddr>, TrackerError>)
    ensures
        data@.len() % 6 != 0 ==> (r matches Err(TrackerError::MalformedPeers(n)) && n
            == data@.len()),
        data@.len() % 6 == 0 ==> (r matches Ok(v) && peers_model(v@) == spec_compact_peers(
            data@,
        )),
{
    let n = data.len();
    if n % 6 != 0 {
        return Err(TrackerError::MalformedPeers(n));
    }
    let count = n / 6;
    let mut peers: Vec<PeerAddr> = Vec::new();
    let mut i: usize = 0;
    while i < count
        invariant
            n == data@.len(),
            count == n / 6,
            i <= count,
            peers_model(peers@) == spec_compact_peers(data@).take(i as int),
        decreases count - i,
    {
        proof {
            assert(6 * i + 6 <= n) by (nonlinear_arith)
                requires
                    i < count,
                    count == n / 6,
            ;
        }
        let at = 6 * i;
        let ip: [u8; 4] = [data[at], data[at + 1], data[at + 2], data[at + 3]];
        let port = read_u16_be(data, at + 4);
        let p = PeerAddr { ip, port };
        let ghost before = peers_model(peers@);
        peers.push(p);
        proof {
            assert(ip@ =~= data@.subrange(6 * i, 6 * i + 4));
            assert(peers_model(peers@) =~= before.push(super::peer_model(p)));
            assert(peers_model(peers@) =~= spec_compact_peers(data@).take(i + 1));
        }
        i += 1;
    }
    assert(spec_compact_peers(data@).take(count as int) =~= spec_compact_peers(data@));
    Ok(peers)
}

/// What the bencoded answer `v` of a tracker comes to: a failure reason wins;
/// the interval defaults to 900 seconds; the compact peer list is required.
pub open spec fn announce_answer(v: ValueModel, r: Result<AnnounceResponse, TrackerError>) -> bool {
    match v.lookup(key("failure reason")) {
        Some(f) => r matches Err(TrackerError::TrackerFailure(msg)) && msg@ == match f.str_of() {
            Some(t) => t,
            None => "unknown error"@,
        },
        None => match opt_bytes(v.lookup(key("peers"))) {
            None => r matches Err(TrackerError::MissingField(name)) && name@ == "peers"@,
            Some(p) => if p.len() % 6 != 0 {
                r matches Err(TrackerError::MalformedPeers(n)) && n == p.len()
            } else {
                r matches Ok(a) && a.interval == (match opt_int(v.lookup(key("interval"))) {
                    Some(n) => n,
                    None => 900,
                }) as u64 && peers_model(a.peers@) == spec_compact_peers(p)
            },
        },
    }
}

/// Interpret the body of a tracker's answer to an announce.
pub fn parse_announce_response(body: &[u8]) -> (r: Result<AnnounceResponse, TrackerError>)
    ensures
        match spec_decode(body@) {
            Err(e) => r matches Err(TrackerError::Decode(x)) && x == e,
            Ok(v) => announce_answer(v, r),
        },
{
    let value = match decode(body) {
        Ok(v) => v,
        Err(e) => {
            return Err(TrackerError::Decode(e));
        },
    };
    if let Some(failure) = value.get_str("failure reason") {
        let msg = match failure.as_str() {
            Some(t) => t.to_owned(),
            None => "unknown error".to_owned(),
        };
        return Err(TrackerError::TrackerFailure(msg));
    }
    let interval = match value.get_str("interval") {
        Some(v) => match v.as_integer() {
            Some(n) => n,
            None => 900,
        },
        None => 900,
    } as u64;
    let peers_raw = match value.get_str("peers") {
        Some(v) => match v.as_bytes() {
            Some(b) => b,
            None => {
                return Err(TrackerError::MissingField("peers"));
            },
        },
        None => {
            return Err(TrackerError::MissingField("peers"));
        },
    };
    let peers = unmarshal_peers(peers_raw)?;
    Ok(AnnounceResponse { interval, peers })
}

/// `rand::random::<u8>()`: a random byte; nothing is stated of it.
#[verifier::external_body]
fn random_u8() -> u8 {
    rand::random::<u8>()
}

/// The client prefix `-RT0001-` of our peer ids.
pub open spec fn peer_id_prefix() -> Seq<u8> {
    seq![45u8, 82, 84, 48, 48, 48, 49, 45]
}

/// The peer id made of the client prefix `-RT0001-` and 12 given bytes.
pub fn peer_id_with(random: &[u8; 12]) -> (r: [u8; 20])
    ensures
        r@ == peer_id_prefix() + random@,
{
    let prefix: [u8; 8] = [45, 82, 84, 48, 48, 48, 49, 45];
    let mut peer_id = [0u8; 20];
    let mut i: usize = 0;
    while i < 20
        invariant
            i <= 20,
            prefix@ == peer_id_prefix(),
            forall|k: int| 0 <= k < i ==> peer_id@[k] == (peer_id_prefix() + random@)[k],
        decreases 20 - i,
    {
        if i < 8 {
            peer_id[i] = prefix[i];
        } else {
            peer_id[i] = random[i - 8];
        }
        i += 1;
    }
    assert(peer_id@ =~= peer_id_prefix() + random@);
    peer_id
}

/// A peer id: the client prefix `-RT0001-`, then 12 random bytes.
pub fn generate_peer_id() -> (r: [u8; 20])
    ensures
        r@.subrange(0, 8) == peer_id_prefix(),
{
    let mut random = [0u8; 12];
    let mut i: usize = 0;
    while i < 12
        invariant
            i <= 12,
        decreases 12 - i,
    {
        random[i] = random_u8();
        i += 1;
    }
    let r = peer_id_with(&random);
    assert(r@.subrange(0, 8) =~= peer_id_prefix());
    r
}

/// An uppercase hexadecimal digit of a number below 16.
pub open spec fn hex_upper(n: u8) -> char {
    if n < 10 {
        (48 + n) as char
    } else {
        (55 + n) as char
    }
}

/// Each byte as `%XX`, uppercase hexadecimal.
pub open spec fn spec_percent_encode(b: Seq<u8>) -> Seq<char> {
    Seq::new(
        3 * b.len(),
        |k: int|
            if k % 3 == 0 {
                '%'
            } else if k % 3 == 1 {
                hex_upper(b[k / 3] / 16)
            } else {
                hex_upper(b[k / 3] % 16)
            },
    )
}

fn push_percent_encoded(out: &mut Vec<char>, b: &[u8; 20])
    ensures
        final(out)@ == old(out)@ + spec_percent_encode(b@),
{
    let ghost start = out@;
    let mut i: usize = 0;
    while i < 20
        invariant
            i <= 20,
            out@ == start + spec_percent_encode(b@).take(3 * i),
        decreases 20 - i,
    {
        let x = b[i];
        let hi = x / 16;
        let lo = x % 16;
        out.push('%');
        out.push(if hi < 10 { (48 + hi) as char } else { (55 + hi) as char });
        out.push(if lo < 10 { (48 + lo) as char } else { (55 + lo) as char });
        assert(out@ =~= start + spec_percent_encode(b@).take(3 * i + 3));
        i += 1;
    }
    assert(spec_percent_encode(b@).take(60) =~= spec_percent_encode(b@));
}

/// The query of an announce: the info hash and peer id percent-encoded byte
/// by byte, then port, byte counts and `compact=1`.
pub open spec fn spec_announce_query(
    info_hash: Seq<u8>,
    peer_id: Seq<u8>,
    port: u16,
    uploaded: u64,
    downloaded: u64,
    left: u64,
) -> Seq<char> {
    "info_hash="@ + spec_percent_encode(info_hash) + "&peer_id="@ + spec_percent_encode(peer_id)
        + "&port="@ + spec_decimal(port as nat) + "&uploaded="@ + spec_decimal(uploaded as nat)
        + "&downloaded="@ + spec_decimal(downloaded as nat) + "&compact=1"@ + "&left="@
        + spec_decimal(left as nat)
}

/// The query string of an announce request.
pub fn announce_query(
    info_hash: &[u8; 20],
    peer_id: &[u8; 20],
    port: u16,
    uploaded: u64,
    downloaded: u64,
    left: u64,
) -> (r: String)
    ensures
        r@ == spec_announce_query(info_hash@, peer_id@, port, uploaded, downloaded, left),
{
    let mut q: Vec<char> = Vec::new();
    push_str(&mut q, "info_hash=");
    push_percent_encoded(&mut q, info_hash);
    push_str(&mut q, "&peer_id=");
    push_percent_encoded(&mut q, peer_id);
    push_str(&mut q, "&port=");
    push_decimal(&mut q, port as u64);
    push_str(&mut q, "&uploaded=");
    push_decimal(&mut q, uploaded);
    push_str(&mut q, "&downloaded=");
    push_decimal(&mut q, downloaded);
    push_str(&mut q, "&compact=1");
    push_str(&mut q, "&left=");
    push_decimal(&mut q, left);
    string_from_chars(q.as_slice())
}

/// `url::ParseError`, why a text is no URL.
#[verifier::external_type_specification]
#[verifier::external_body]
pub struct ExUrlParseError(url::ParseError);

/// Whether the `url` crate parses a text as an absolute URL.
pub uninterp spec fn url_parses(s: Seq<char>) -> bool;

/// The text of the URL that the `url` crate parses from `base`, with its
/// query set to `query`.
pub uninterp spec fn url_with_query(base: Seq<char>, query: Seq<char>) -> Seq<char>;

/// The longest URL text, in characters, handed to the `url` crate. The
/// crate keeps positions in its text as `u32` and panics past `u32::MAX`
/// bytes; a text of at most this many characters (at most 4 MiB) stays far
/// below that, whatever escaping and host encoding make of it.
pub const MAX_URL_CHARS: usize = 1048576;

/// `url::Url::parse`, then `Url::set_query` and `Url::as_str`: the URL
/// parsed from `base` with its query replaced by `query`, as text. Trusted:
/// it succeeds exactly on the texts that `url_parses` names, and the text is
/// the function `url_with_query` of the two arguments (the serialisation
/// itself is not described). Texts longer than `MAX_URL_CHARS` are left
/// out, so the crate's length limit is never reached.
#[verifier::external_body]
fn url_replace_query(base: &str, query: &str) -> (r: Result<String, url::ParseError>)
    requires
        base@.len() <= MAX_URL_CHARS,
        query@.len() <= MAX_URL_CHARS,
    ensures
        r is Ok <==> url_parses(base@),
        r matches Ok(t) ==> t@ == url_with_query(base@, query@),
{
    let mut url = url::Url::parse(base)?;
    url.set_query(Some(query));
    Ok(url.as_str().to_owned())
}

/// `<url::ParseError as ToString>::to_string`: the error's message; nothing
/// is stated of the text.
#[verifier::external_body]
fn url_error_text(e: &url::ParseError) -> String {
    e.to_string()
}

/// Ten to the power `k`.
pub open spec fn pow10(k: nat) -> nat
    decreases k,
{
    if k == 0 {
        1
    } else {
        10 * pow10((k - 1) as nat)
    }
}

proof fn lemma_decimal_len(n: nat, k: nat)
    requires
        k >= 1,
        n < pow10(k),
    ensures
        spec_decimal(n).len() <= k,
    decreases k,
{
    if n >= 10 {
        assert(pow10(1) == 10) by {
            assert(pow10(0) == 1);
        }
        assert(k >= 2);
        let p = pow10((k - 1) as nat);
        assert(n / 10 < p) by (nonlinear_arith)
            requires
                n < 10 * p,
        ;
        lemma_decimal_len(n / 10, (k - 1) as nat);
    }
}

proof fn lemma_u64_decimal_len(n: u64)
    ensures
        spec_decimal(n as nat).len() <= 20,
{
    assert(pow10(20) == 100000000000000000000nat) by {
        reveal_with_fuel(pow10, 21);
    }
    lemma_decimal_len(n as nat, 20);
}

/// The announce query is short: at most 400 characters.
proof fn lemma_announce_query_len(
    info_hash: Seq<u8>,
    peer_id: Seq<u8>,
    port: u16,
    uploaded: u64,
    downloaded: u64,
    left: u64,
)
    requires
        info_hash.len() == 20,
        peer_id.len() == 20,
    ensures
        spec_announce_query(info_hash, peer_id, port, uploaded, downloaded, left).len() <= 400,
{
    reveal_strlit("info_hash=");
    reveal_strlit("&peer_id=");
    reveal_strlit("&port=");
    reveal_strlit("&uploaded=");
    reveal_strlit("&downloaded=");
    reveal_strlit("&compact=1");
    reveal_strlit("&left=");
    lemma_u64_decimal_len(port as u64);
    lemma_u64_decimal_len(uploaded);
    lemma_u64_decimal_len(downloaded);
    lemma_u64_decimal_len(left);
}

/// The announce URL: the tracker's URL with its query replaced by
/// [`announce_query`]. Announce texts longer than `MAX_URL_CHARS`
/// characters are left out (see there).
pub fn build_announce_url(
    announce: &str,
    info_hash: &[u8; 20],
    peer_id: &[u8; 20],
    port: u16,
    uploaded: u64,
    downloaded: u64,
    left: u64,
) -> (r: Result<String, TrackerError>)
    requires
        announce@.len() <= MAX_URL_CHARS,
    ensures
        r is Ok <==> url_parses(announce@),
        r is Err ==> r matches Err(TrackerError::UrlBuild(_)),
        r matches Ok(s) ==> s@ == url_with_query(
            announce@,
            spec_announce_query(info_hash@, peer_id@, port, uploaded, downloaded, left),
        ),
{
    let query = announce_query(info_hash, peer_id, port, uploaded, downloaded, left);
    proof {
        lemma_announce_query_len(info_hash@, peer_id@, port, uploaded, downloaded, left);
    }
    match url_replace_query(announce, query.as_str()) {
        Ok(s) => Ok(s),
        Err(e) => Err(TrackerError::UrlBuild(url_error_text(&e))),
    }
}

/// Whether a character is an uppercase hexadecimal digit, `0`-`9` or `A`-`F`.
pub open spec fn is_upper_hex(c: char) -> bool {
    (48 <= (c as u32) <= 57) || (65 <= (c as u32) <= 70)
}

/// The value of an uppercase hexadecimal digit.
pub open spec fn upper_hex_value(c: char) -> int {
    if (c as u32) <= 57 {
        (c as u32) - 48
    } else {
        (c as u32) - 55
    }
}

/// Whether `q[at..at + 3]` is `%` and two uppercase hexadecimal digits that
/// write the byte `b`, high nibble first.
pub open spec fn escapes_byte(q: Seq<char>, at: int, b: u8) -> bool {
    &&& q[at] == '%'
    &&& is_upper_hex(q[at + 1])
    &&& is_upper_hex(q[at + 2])
    &&& upper_hex_value(q[at + 1]) * 16 + upper_hex_value(q[at + 2]) == b
}

proof fn lemma_percent_encode_escapes(b: Seq<u8>, q: Seq<char>, at: int)
    requires
        0 <= at,
        at + 3 * b.len() <= q.len(),
        q.subrange(at, at + 3 * b.len()) == spec_percent_encode(b),
    ensures
        forall|i: int| 0 <= i < b.len() ==> escapes_byte(q, at + 3 * i, #[trigger] b[i]),
{
    assert forall|i: int| 0 <= i < b.len() implies escapes_byte(q, at + 3 * i, #[trigger] b[i]) by {
        let e = spec_percent_encode(b);
        assert(q[at + 3 * i] == e[3 * i]);
        assert(q[at + 3 * i + 1] == e[3 * i + 1]);
        assert(q[at + 3 * i + 2] == e[3 * i + 2]);
        assert((3 * i + 1) / 3 == i && (3 * i + 1) % 3 == 1);
        assert((3 * i + 2) / 3 == i && (3 * i + 2) % 3 == 2);
        assert((3 * i) / 3 == i && (3 * i) % 3 == 0);
        let hi = b[i] / 16;
        let lo = b[i] % 16;
        assert(hi * 16 + lo == b[i]);
    }
}

/// In an announce query, every byte of the info hash and of the peer id is
/// written in its place as `%` and two uppercase hexadecimal digits, high
/// nibble first, so decoding the two fields gives the 20 bytes back.
pub proof fn law_query_escapes_bytes(
    info_hash: Seq<u8>,
    peer_id: Seq<u8>,
    port: u16,
    uploaded: u64,
    downloaded: u64,
    left: u64,
)
    requires
        info_hash.len() == 20,
        peer_id.len() == 20,
    ensures
        ({
            let q = spec_announce_query(info_hash, peer_id, port, uploaded, downloaded, left);
            &&& q.subrange(0, 10) == "info_hash="@
            &&& forall|i: int| 0 <= i < 20 ==> escapes_byte(q, 10 + 3 * i, #[trigger] info_hash[i])
            &&& q.subrange(70, 79) == "&peer_id="@
            &&& forall|i: int| 0 <= i < 20 ==> escapes_byte(q, 79 + 3 * i, #[trigger] peer_id[i])
        }),
{
    reveal_strlit("info_hash=");
    reveal_strlit("&peer_id=");
    let q = spec_announce_query(info_hash, peer_id, port, uploaded, downloaded, left);
    let a = "info_hash="@ + spec_percent_encode(info_hash);
    let b = a + "&peer_id="@ + spec_percent_encode(peer_id);
    assert(q.len() >= b.len());
    assert forall|k: int| 0 <= k < b.len() implies q[k] == b[k] by {}
    assert(q.subrange(0, 10) =~= "info_hash="@);
    assert(q.subrange(10, 70) =~= spec_percent_encode(info_hash));
    assert(q.subrange(70, 79) =~= "&peer_id="@);
    assert(q.subrange(79, 139) =~= spec_percent_encode(peer_id));
    lemma_percent_encode_escapes(info_hash, q, 10);
    lemma_percent_encode_escapes(peer_id, q, 79);
}

} // verus!

//! Magnet URI parser for `magnet:?xt=urn:btih:<info_hash>&dn=<name>&tr=<tracker>`.

use crate::num::{hex_digit, hex_digit_value, is_hex_digit, parse_hex_u8, spec_parse_hex_u8};
use crate::text::{chars_eq, chars_of, find_char, find_char_exec, string_from_chars};
use vstd::prelude::*;
use vstd::string::StringSliceAdditionalSpecFns;
use vstd::utf8::{encode_utf8, is_ascii_chars, is_ascii_chars_encode_utf8};

verus! {

/// Why a magnet URI was refused.
#[derive(Debug)]
pub enum MagnetError {
    InvalidScheme,
    MissingInfoHash,
    InvalidInfoHash(usize),
    InvalidUrn,
    HexDecode(String),
}

/// A parsed magnet link.
#[derive(Debug, Clone)]
pub struct MagnetLink {
    /// The 20-byte info hash.
    pub info_hash: [u8; 20],
    /// Display name, if given.
    pub display_name: Option<String>,
    /// Tracker URLs, in the order given.
    pub trackers: Vec<String>,
}

/// The message `u8::from_str_radix` gives for a digit it does not accept.
pub open spec fn invalid_digit_message() -> Seq<char> {
    seq![
        'i', 'n', 'v', 'a', 'l', 'i', 'd', ' ', 'd', 'i', 'g', 'i', 't', ' ', 'f', 'o', 'u', 'n',
        'd', ' ', 'i', 'n', ' ', 's', 't', 'r', 'i', 'n', 'g',
    ]
}

/// The pieces of `s[from..]` between the separators, as `str::split` gives them.
pub open spec fn split_from(s: Seq<char>, from: int, sep: char) -> Seq<Seq<char>>
    decreases s.len() - from,
{
    let j = find_char(s, from, sep);
    if j >= s.len() || j < from {
        seq![s.subrange(from, s.len() as int)]
    } else {
        seq![s.subrange(from, j)] + split_from(s, j + 1, sep)
    }
}

/// A `key=value` pair: the text before the first `=`, and the text after it
/// (empty when there is no `=`).
pub open spec fn pair_of(piece: Seq<char>) -> (Seq<char>, Seq<char>) {
    let e = find_char(piece, 0, '=');
    if e >= piece.len() {
        (piece, Seq::empty())
    } else {
        (piece.subrange(0, e), piece.subrange(e + 1, piece.len() as int))
    }
}

/// The value of the first pair from `i` on whose key is `key`.
pub open spec fn first_value(ps: Seq<Seq<char>>, i: int, key: Seq<char>) -> Option<Seq<char>>
    decreases ps.len() - i,
{
    if i < 0 || i >= ps.len() {
        None
    } else if pair_of(ps[i]).0 == key {
        Some(pair_of(ps[i]).1)
    } else {
        first_value(ps, i + 1, key)
    }
}

/// The decoded values of all pairs whose key is `key`, in order.
pub open spec fn decoded_values(ps: Seq<Seq<char>>, key: Seq<char>) -> Seq<Seq<char>>
    decreases ps.len(),
{
    if ps.len() == 0 {
        Seq::empty()
    } else {
        let rest = decoded_values(ps.drop_last(), key);
        if pair_of(ps.last()).0 == key {
            rest.push(spec_url_decode(pair_of(ps.last()).1, 0))
        } else {
            rest
        }
    }
}

/// Percent-decoding from position `i`: `%` and the (up to) two characters
/// after it become the byte they write in hexadecimal, taken as a character;
/// when they write no byte, they stay as they are. `+` becomes a space.
pub open spec fn spec_url_decode(s: Seq<char>, i: int) -> Seq<char>
    decreases s.len() - i,
{
    if i < 0 || i >= s.len() {
        Seq::empty()
    } else if s[i] == '%' {
        let next = if i + 3 <= s.len() {
            i + 3
        } else {
            s.len() as int
        };
        let hex = s.subrange(i + 1, next);
        match spec_parse_hex_u8(encode_utf8(hex)) {
            Some(b) => seq![b as char] + spec_url_decode(s, next),
            None => seq!['%'] + hex + spec_url_decode(s, next),
        }
    } else if s[i] == '+' {
        seq![' '] + spec_url_decode(s, i + 1)
    } else {
        seq![s[i]] + spec_url_decode(s, i + 1)
    }
}

/// The byte that two hexadecimal digits write, if both are hexadecimal
/// digits.
pub open spec fn hex_pair(a: u8, b: u8) -> Option<u8> {
    if is_hex_digit(a) && is_hex_digit(b) {
        Some((hex_digit_value(a) * 16 + hex_digit_value(b)) as u8)
    } else {
        None
    }
}

/// What reading the hexadecimal pairs of an info hash from pair `i` on
/// comes to.
pub enum HexPairs {
    Bytes(Seq<u8>),
    InvalidDigit,
}

pub open spec fn spec_hex_pairs(h: Seq<u8>, i: int) -> HexPairs
    decreases 20 - i,
{
    if i < 0 || i >= 20 {
        HexPairs::Bytes(Seq::empty())
    } else {
        match hex_pair(h[2 * i], h[2 * i + 1]) {
            None => HexPairs::InvalidDigit,
            Some(b) => match spec_hex_pairs(h, i + 1) {
                HexPairs::Bytes(rest) => HexPairs::Bytes(seq![b] + rest),
                other => other,
            },
        }
    }
}

/// The bytes `urn:btih:`.
pub open spec fn urn_prefix() -> Seq<u8> {
    seq![117u8, 114, 110, 58, 98, 116, 105, 104, 58]
}

/// How a parse can fail, without the message text.
pub enum MagnetFailure {
    InvalidScheme,
    MissingInfoHash,
    InvalidInfoHash(usize),
    InvalidUrn,
    HexDecode,
}

/// The error a failure is reported as.
pub open spec fn reports(e: MagnetError, f: MagnetFailure) -> bool {
    match f {
        MagnetFailure::InvalidScheme => e is InvalidScheme,
        MagnetFailure::MissingInfoHash => e is MissingInfoHash,
        MagnetFailure::InvalidInfoHash(n) => e matches MagnetError::InvalidInfoHash(m) && m == n,
        MagnetFailure::InvalidUrn => e is InvalidUrn,
        MagnetFailure::HexDecode => e matches MagnetError::HexDecode(s) && s@
            == invalid_digit_message(),
    }
}

/// The `xt` value as UTF-8 bytes: `urn:btih:` and 40 hexadecimal digits.
pub open spec fn spec_parse_xt(xt: Seq<u8>) -> Result<Seq<u8>, MagnetFailure> {
    if xt.len() < 9 || xt.subrange(0, 9) != urn_prefix() {
        Err(MagnetFailure::InvalidUrn)
    } else {
        let h = xt.subrange(9, xt.len() as int);
        if h.len() != 40 {
            Err(MagnetFailure::InvalidInfoHash(h.len() as usize))
        } else {
            match spec_hex_pairs(h, 0) {
                HexPairs::Bytes(b) => Ok(b),
                HexPairs::InvalidDigit => Err(MagnetFailure::HexDecode),
            }
        }
    }
}

/// `magnet:?`.
pub open spec fn magnet_scheme() -> Seq<char> {
    seq!['m', 'a', 'g', 'n', 'e', 't', ':', '?']
}

pub struct MagnetModel {
    pub info_hash: Seq<u8>,
    pub display_name: Option<Seq<char>>,
    pub trackers: Seq<Seq<char>>,
}

/// What parsing a magnet URI gives.
pub open spec fn spec_parse_magnet(uri: Seq<char>) -> Result<MagnetModel, MagnetFailure> {
    if uri.len() < 8 || uri.subrange(0, 8) != magnet_scheme() {
        Err(MagnetFailure::InvalidScheme)
    } else {
        let ps = split_from(uri, 8, '&');
        match first_value(ps, 0, seq!['x', 't']) {
            None => Err(MagnetFailure::MissingInfoHash),
            Some(xt) => match spec_parse_xt(encode_utf8(xt)) {
                Err(f) => Err(f),
                Ok(h) => Ok(
                    MagnetModel {
                        info_hash: h,
                        display_name: match first_value(ps, 0, seq!['d', 'n']) {
                            Some(v) => Some(spec_url_decode(v, 0)),
                            None => None,
                        },
                        trackers: decoded_values(ps, seq!['t', 'r']),
                    },
                ),
            },
        }
    }
}

impl MagnetLink {
    pub open spec fn model(self) -> MagnetModel {
        MagnetModel {
            info_hash: self.info_hash@,
            display_name: match self.display_name {
                Some(s) => Some(s@),
                None => None,
            },
            trackers: self.trackers@.map_values(|t: String| t@),
        }
    }
}

/// The pieces of `s[from..]` between `&` separators.
fn split_pieces(s: &[char], from: usize) -> (r: Vec<Vec<char>>)
    requires
        from <= s@.len(),
    ensures
        r@.map_values(|v: Vec<char>| v@) == split_from(s@, from as int, '&'),
{
    let mut pieces: Vec<Vec<char>> = Vec::new();
    let mut p = from;
    let mut done = false;
    while !done
        invariant
            from <= p <= s@.len(),
            done ==> pieces@.map_values(|v: Vec<char>| v@) == split_from(s@, from as int, '&'),
            !done ==> pieces@.map_values(|v: Vec<char>| v@) + split_from(s@, p as int, '&')
                == split_from(s@, from as int, '&'),
        decreases s@.len() - p + if done {
            0int
        } else {
            1int
        },
    {
        let j = find_char_exec(s, p, '&');
        let piece = vstd::slice::slice_to_vec(&s[p..j]);
        let ghost before = pieces@.map_values(|v: Vec<char>| v@);
        pieces.push(piece);
        assert(pieces@.map_values(|v: Vec<char>| v@) =~= before.push(piece@));
        if j == s.len() {
            assert(before + split_from(s@, p as int, '&') =~= before.push(piece@));
            done = true;
        } else {
            assert(before + split_from(s@, p as int, '&') =~= before.push(piece@) + split_from(
                s@,
                j + 1,
                '&',
            ));
            p = j + 1;
        }
    }
    pieces
}

/// Split a `key=value` piece at its first `=`.
fn pair_exec(piece: &[char]) -> (r: (Vec<char>, Vec<char>))
    ensures
        (r.0@, r.1@) == pair_of(piece@),
{
    let e = find_char_exec(piece, 0, '=');
    if e == piece.len() {
        (vstd::slice::slice_to_vec(piece), Vec::new())
    } else {
        (
            vstd::slice::slice_to_vec(&piece[0..e]),
            vstd::slice::slice_to_vec(&piece[e + 1..piece.len()]),
        )
    }
}

/// The value of the first pair whose key is `key`.
fn first_value_exec(ps: &Vec<Vec<char>>, key: &[char]) -> (r: Option<Vec<char>>)
    ensures
        match first_value(ps@.map_values(|v: Vec<char>| v@), 0, key@) {
            Some(v) => r matches Some(x) && x@ == v,
            None => r is None,
        },
{
    let ghost m = ps@.map_values(|v: Vec<char>| v@);
    let mut i: usize = 0;
    while i < ps.len()
        invariant
            i <= ps@.len(),
            m == ps@.map_values(|v: Vec<char>| v@),
            first_value(m, 0, key@) == first_value(m, i as int, key@),
        decreases ps@.len() - i,
    {
        let (k, v) = pair_exec(ps[i].as_slice());
        assert(m[i as int] == ps@[i as int]@);
        if chars_eq(k.as_slice(), key) {
            return Some(v);
        }
        i += 1;
    }
    None
}

/// The decoded values of all pairs whose key is `key`.
fn decoded_values_exec(ps: &Vec<Vec<char>>, key: &[char]) -> (r: Vec<String>)
    ensures
        r@.map_values(|t: String| t@) == decoded_values(ps@.map_values(|v: Vec<char>| v@), key@),
{
    let ghost m = ps@.map_values(|v: Vec<char>| v@);
    let mut out: Vec<String> = Vec::new();
    let mut i: usize = 0;
    while i < ps.len()
        invariant
            i <= ps@.len(),
            m == ps@.map_values(|v: Vec<char>| v@),
            out@.map_values(|t: String| t@) == decoded_values(m.take(i as int), key@),
        decreases ps@.len() - i,
    {
        assert(m.take(i + 1).drop_last() =~= m.take(i as int));
        assert(m[i as int] == ps@[i as int]@);
        let (k, v) = pair_exec(ps[i].as_slice());
        if chars_eq(k.as_slice(), key) {
            let vs = string_from_chars(v.as_slice());
            let d = url_decode(vs.as_str());
            let ghost before = out@.map_values(|t: String| t@);
            out.push(d);
            assert(out@.map_values(|t: String| t@) =~= before.push(d@));
        }
        i += 1;
    }
    assert(m.take(i as int) =~= m);
    out
}

/// Percent-decode a URL parameter: `%XX` becomes the byte `XX` taken as a
/// character, `+` becomes a space.
pub fn url_decode(input: &str) -> (r: String)
    ensures
        r@ == spec_url_decode(input@, 0),
{
    let s = chars_of(input);
    let mut out: Vec<char> = Vec::new();
    let mut i: usize = 0;
    while i < s.len()
        invariant
            i <= s@.len(),
            out@ + spec_url_decode(s@, i as int) == spec_url_decode(s@, 0),
        decreases s@.len() - i,
    {
        let c = s[i];
        let ghost before = out@;
        if c == '%' {
            let next = if s.len() - i >= 3 {
                i + 3
            } else {
                s.len()
            };
            let hex = vstd::slice::slice_to_vec(&s[i + 1..next]);
            let hex_str = string_from_chars(hex.as_slice());
            let bytes = hex_str.as_str().as_bytes();
            match parse_hex_u8(bytes) {
                Some(b) => {
                    out.push(b as char);
                    assert(before + spec_url_decode(s@, i as int) =~= out@ + spec_url_decode(
                        s@,
                        next as int,
                    ));
                },
                None => {
                    out.push('%');
                    let mut k: usize = 0;
                    while k < hex.len()
                        invariant
                            k <= hex@.len(),
                            out@ == before + seq!['%'] + hex@.take(k as int),
                        decreases hex@.len() - k,
                    {
                        out.push(hex[k]);
                        assert(hex@.take(k + 1) =~= hex@.take(k as int).push(hex@[k as int]));
                        k += 1;
                    }
                    assert(hex@.take(k as int) =~= hex@);
                    assert(before + spec_url_decode(s@, i as int) =~= out@ + spec_url_decode(
                        s@,
                        next as int,
                    ));
                },
            }
            i = next;
        } else if c == '+' {
            out.push(' ');
            assert(before + spec_url_decode(s@, i as int) =~= out@ + spec_url_decode(s@, i + 1));
            i += 1;
        } else {
            out.push(c);
            assert(before + spec_url_decode(s@, i as int) =~= out@ + spec_url_decode(s@, i + 1));
            i += 1;
        }
    }
    assert(out@ =~= spec_url_decode(s@, 0));
    string_from_chars(out.as_slice())
}

/// Prepend bytes to a successful outcome.
pub open spec fn prepend(p: Seq<u8>, o: HexPairs) -> HexPairs {
    match o {
        HexPairs::Bytes(r) => HexPairs::Bytes(p + r),
        other => other,
    }
}

/// The byte that two hexadecimal digits write.
fn read_hex_pair(a: u8, b: u8) -> (r: Option<u8>)
    ensures
        r == hex_pair(a, b),
{
    match (hex_digit(a), hex_digit(b)) {
        (Some(x), Some(y)) => Some(x * 16 + y),
        _ => None,
    }
}

/// Read the 20 hexadecimal pairs of an info hash.
fn read_hex_pairs(h: &[u8]) -> (r: Option<[u8; 20]>)
    requires
        h@.len() == 40,
    ensures
        match spec_hex_pairs(h@, 0) {
            HexPairs::Bytes(b) => r matches Some(a) && a@ == b,
            HexPairs::InvalidDigit => r is None,
        },
{
    let mut out = [0u8; 20];
    let mut i: usize = 0;
    while i < 20
        invariant
            i <= 20,
            h@.len() == 40,
            spec_hex_pairs(h@, 0) == prepend(out@.take(i as int), spec_hex_pairs(h@, i as int)),
        decreases 20 - i,
    {
        match read_hex_pair(h[2 * i], h[2 * i + 1]) {
            None => {
                return None;
            },
            Some(b) => {
                let ghost before = out@;
                out[i] = b;
                assert(out@.take(i as int) =~= before.take(i as int));
                assert(out@.take(i + 1) =~= out@.take(i as int) + seq![b]);
                assert forall|r: Seq<u8>| #![auto] out@.take(i as int) + (seq![b] + r) =~= out@.take(
                    i + 1,
                ) + r by {}
            },
        }
        i += 1;
    }
    assert(out@.take(20) =~= out@);
    assert(out@ + Seq::<u8>::empty() =~= out@);
    Some(out)
}

/// The message text of a hexadecimal digit error.
fn invalid_digit_text() -> (r: String)
    ensures
        r@ == invalid_digit_message(),
{
    proof {
        reveal_strlit("invalid digit found in string");
    }
    let r = "invalid digit found in string".to_owned();
    assert(r@ =~= invalid_digit_message());
    r
}

impl MagnetLink {
    /// Parse the `xt` parameter: `urn:btih:<40 hexadecimal digits>`.
    fn parse_xt(xt: &str) -> (r: Result<[u8; 20], MagnetError>)
        ensures
            match spec_parse_xt(xt.spec_bytes()) {
                Ok(h) => r matches Ok(a) && a@ == h,
                Err(f) => r matches Err(e) && reports(e, f),
            },
    {
        let b = xt.as_bytes();
        let prefix: [u8; 9] = [117, 114, 110, 58, 98, 116, 105, 104, 58];
        assert(prefix@ =~= urn_prefix());
        if b.len() < 9 || !crate::bencode::compare_bytes(&b[0..9], prefix.as_slice()).is_equal() {
            return Err(MagnetError::InvalidUrn);
        }
        let h = &b[9..b.len()];
        if h.len() != 40 {
            return Err(MagnetError::InvalidInfoHash(h.len()));
        }
        match read_hex_pairs(h) {
            Some(a) => Ok(a),
            None => Err(MagnetError::HexDecode(invalid_digit_text())),
        }
    }

    /// Parse a magnet URI.
    pub fn parse(uri: &str) -> (r: Result<Self, MagnetError>)
        ensures
            match spec_parse_magnet(uri@) {
                Ok(m) => r matches Ok(x) && x.model() == m,
                Err(f) => r matches Err(e) && reports(e, f),
            },
    {
        let c = chars_of(uri);
        let scheme: [char; 8] = ['m', 'a', 'g', 'n', 'e', 't', ':', '?'];
        assert(scheme@ =~= magnet_scheme());
        if c.len() < 8 || !chars_eq(&c[0..8], scheme.as_slice()) {
            return Err(MagnetError::InvalidScheme);
        }
        let params = split_pieces(c.as_slice(), 8);
        let xt_key: [char; 2] = ['x', 't'];
        let dn_key: [char; 2] = ['d', 'n'];
        let tr_key: [char; 2] = ['t', 'r'];
        assert(xt_key@ =~= seq!['x', 't']);
        assert(dn_key@ =~= seq!['d', 'n']);
        assert(tr_key@ =~= seq!['t', 'r']);
        let xt = match first_value_exec(&params, xt_key.as_slice()) {
            Some(v) => v,
            None => {
                return Err(MagnetError::MissingInfoHash);
            },
        };
        let xt_str = string_from_chars(xt.as_slice());
        let info_hash = Self::parse_xt(xt_str.as_str())?;
        let display_name = match first_value_exec(&params, dn_key.as_slice()) {
            Some(v) => {
                let vs = string_from_chars(v.as_slice());
                Some(url_decode(vs.as_str()))
            },
            None => None,
        };
        let trackers = decoded_values_exec(&params, tr_key.as_slice());
        Ok(MagnetLink { info_hash, display_name, trackers })
    }
}

/// The lowercase hexadecimal digit of a number below 16.
pub open spec fn hex_digit_char(n: u8) -> char {
    if n < 10 {
        (48 + n) as char
    } else {
        (87 + n) as char
    }
}

/// Two lowercase hexadecimal digits per byte.
pub open spec fn spec_hex_lower(h: Seq<u8>) -> Seq<char> {
    Seq::new(
        2 * h.len(),
        |k: int|
            if k % 2 == 0 {
                hex_digit_char(h[k / 2] / 16)
            } else {
                hex_digit_char(h[k / 2] % 16)
            },
    )
}

fn hex_digit_exec(n: u8) -> (c: char)
    requires
        n < 16,
    ensures
        c == hex_digit_char(n),
{
    if n < 10 {
        (48 + n) as char
    } else {
        (87 + n) as char
    }
}

impl MagnetLink {
    /// The info hash as 40 lowercase hexadecimal digits.
    pub fn info_hash_hex(&self) -> (r: String)
        ensures
            r@ == spec_hex_lower(self.info_hash@),
    {
        let mut out: Vec<char> = Vec::new();
        let mut i: usize = 0;
        while i < 20
            invariant
                i <= 20,
                out@ == spec_hex_lower(self.info_hash@).take(2 * i),
            decreases 20 - i,
        {
            let b = self.info_hash[i];
            out.push(hex_digit_exec(b / 16));
            out.push(hex_digit_exec(b % 16));
            assert(out@ =~= spec_hex_lower(self.info_hash@).take(2 * i + 2));
            i += 1;
        }
        assert(out@ =~= spec_hex_lower(self.info_hash@));
        string_from_chars(out.as_slice())
    }
}

/// `urn:btih:` as text.
pub open spec fn urn_chars() -> Seq<char> {
    seq!['u', 'r', 'n', ':', 'b', 't', 'i', 'h', ':']
}

proof fn lemma_hex_pair(b: u8)
    ensures
        hex_pair(hex_digit_char(b / 16) as u8, hex_digit_char(b % 16) as u8) == Some(b),
{
    let n1 = b / 16;
    let n2 = b % 16;
    let x = hex_digit_char(n1) as u8;
    let y = hex_digit_char(n2) as u8;
    assert(x == if n1 < 10 { 48 + n1 } else { 87 + n1 });
    assert(y == if n2 < 10 { 48 + n2 } else { 87 + n2 });
    assert(hex_digit_value(x) == n1);
    assert(hex_digit_value(y) == n2);
}

proof fn lemma_hex_pairs_of_hex(h: Seq<u8>, hb: Seq<u8>, i: int)
    requires
        h.len() == 20,
        hb.len() == 40,
        forall|k: int| 0 <= k < 40 ==> #[trigger] hb[k] == spec_hex_lower(h)[k] as u8,
        0 <= i <= 20,
    ensures
        spec_hex_pairs(hb, i) == HexPairs::Bytes(h.subrange(i, 20)),
    decreases 20 - i,
{
    if i < 20 {
        lemma_hex_pairs_of_hex(h, hb, i + 1);
        lemma_hex_pair(h[i]);
        assert(hb[2 * i] == spec_hex_lower(h)[2 * i] as u8);
        assert(hb[2 * i + 1] == spec_hex_lower(h)[2 * i + 1] as u8);
        assert((2 * i + 1) / 2 == i);
        assert(seq![h[i]] + h.subrange(i + 1, 20) =~= h.subrange(i, 20));
    } else {
        assert(h.subrange(20, 20) =~= Seq::<u8>::empty());
    }
}

/// The text that `info_hash_hex` gives, behind `urn:btih:`, reads back as
/// the same info hash.
pub proof fn law_info_hash_hex_roundtrip(h: Seq<u8>)
    requires
        h.len() == 20,
    ensures
        spec_parse_xt(encode_utf8(urn_chars() + spec_hex_lower(h))) == Ok::<
            Seq<u8>,
            MagnetFailure,
        >(h),
{
    let c = urn_chars() + spec_hex_lower(h);
    assert(is_ascii_chars(c)) by {
        assert forall|k: int| 0 <= k < c.len() implies ((#[trigger] c[k]) as u32) < 128 by {
            if k >= 9 {
                assert(c[k] == spec_hex_lower(h)[k - 9]);
            }
        }
    }
    is_ascii_chars_encode_utf8(c);
    let b = encode_utf8(c);
    assert(b.subrange(0, 9) =~= urn_prefix()) by {
        assert forall|k: int| 0 <= k < 9 implies b[k] == urn_prefix()[k] by {
            assert(c[k] as u8 == b[k]);
        }
    }
    let hb = b.subrange(9, b.len() as int);
    assert forall|k: int| 0 <= k < 40 implies #[trigger] hb[k] == spec_hex_lower(h)[k] as u8 by {
        assert(c[k + 9] as u8 == b[k + 9]);
        assert(c[k + 9] == spec_hex_lower(h)[k]);
    }
    lemma_hex_pairs_of_hex(h, hb, 0);
    assert(h.subrange(0, 20) =~= h);
}

/// Text with no `%` and no `+` decodes to itself.
pub proof fn law_url_decode_plain(s: Seq<char>, i: int)
    requires
        0 <= i <= s.len(),
        forall|k: int| 0 <= k < s.len() ==> s[k] != '%' && s[k] != '+',
    ensures
        spec_url_decode(s, i) == s.subrange(i, s.len() as int),
    decreases s.len() - i,
{
    if i < s.len() {
        law_url_decode_plain(s, i + 1);
        assert(seq![s[i]] + s.subrange(i + 1, s.len() as int) =~= s.subrange(i, s.len() as int));
    } else {
        assert(s.subrange(i, s.len() as int) =~= Seq::<char>::empty());
    }
}

proof fn lemma_find_char_absent(s: Seq<char>, from: int, c: char)
    requires
        0 <= from,
        forall|k: int| from <= k < s.len() ==> s[k] != c,
    ensures
        find_char(s, from, c) == s.len(),
    decreases s.len() - from,
{
    if from < s.len() {
        lemma_find_char_absent(s, from + 1, c);
    }
}

/// The magnet URI `magnet:?xt=urn:btih:<hex>` made from the hexadecimal
/// text of an info hash.
pub open spec fn magnet_of_hex(h: Seq<u8>) -> Seq<char> {
    magnet_scheme() + seq!['x', 't', '='] + urn_chars() + spec_hex_lower(h)
}

/// Parsing the magnet URI built from `info_hash_hex` gives back the same
/// info hash, with no name and no trackers.
pub proof fn law_magnet_hex_roundtrip(h: Seq<u8>)
    requires
        h.len() == 20,
    ensures
        spec_parse_magnet(magnet_of_hex(h)) matches Ok(m) && m.info_hash == h
            && m.display_name is None && m.trackers.len() == 0,
{
    let u = magnet_of_hex(h);
    let xt = urn_chars() + spec_hex_lower(h);
    assert forall|k: int| 8 <= k < u.len() implies u[k] != '&' by {
        if k >= 20 {
            assert(u[k] == spec_hex_lower(h)[k - 20]);
        }
    }
    lemma_find_char_absent(u, 8, '&');
    let piece = u.subrange(8, u.len() as int);
    assert(split_from(u, 8, '&') == seq![piece]);
    assert(piece[0] == 'x' && piece[1] == 't' && piece[2] == '=');
    assert(find_char(piece, 2, '=') == 2);
    assert(find_char(piece, 1, '=') == 2);
    assert(find_char(piece, 0, '=') == 2);
    assert(piece.subrange(0, 2) =~= seq!['x', 't']);
    assert(piece.subrange(3, piece.len() as int) =~= xt);
    let ps = seq![piece];
    assert(first_value(ps, 1, seq!['x', 't']) is None);
    assert(first_value(ps, 0, seq!['x', 't']) == Some(xt));
    assert(seq!['x', 't'] != seq!['d', 'n']) by {
        assert(seq!['x', 't'][0] != seq!['d', 'n'][0]);
    }
    assert(seq!['x', 't'] != seq!['t', 'r']) by {
        assert(seq!['x', 't'][0] != seq!['t', 'r'][0]);
    }
    assert(first_value(ps, 1, seq!['d', 'n']) is None);
    assert(first_value(ps, 0, seq!['d', 'n']) is None);
    assert(ps.drop_last() =~= Seq::<Seq<char>>::empty());
    assert(ps.last() == piece);
    assert(pair_of(piece).0 == seq!['x', 't']);
    assert(decoded_values(Seq::<Seq<char>>::empty(), seq!['t', 'r']) =~= Seq::<Seq<char>>::empty());
    assert(decoded_values(ps, seq!['t', 'r']) =~= Seq::<Seq<char>>::empty());
    law_info_hash_hex_roundtrip(h);
    assert(u.subrange(0, 8) =~= magnet_scheme());
}

proof fn lemma_find_char_at(s: Seq<char>, from: int, j: int, c: char)
    requires
        0 <= from <= j < s.len(),
        s[j] == c,
        forall|k: int| from <= k < j ==> s[k] != c,
    ensures
        find_char(s, from, c) == j,
    decreases j - from,
{
    if from < j {
        lemma_find_char_at(s, from + 1, j, c);
    }
}

proof fn lemma_split_head(s: Seq<char>, from: int, j: int)
    requires
        0 <= from <= j < s.len(),
        s[j] == '&',
        forall|k: int| from <= k < j ==> s[k] != '&',
    ensures
        split_from(s, from, '&') == seq![s.subrange(from, j)] + split_from(s, j + 1, '&'),
{
    lemma_find_char_at(s, from, j, '&');
}

proof fn lemma_pair_of_key(a: char, b: char, v: Seq<char>)
    requires
        a != '=',
        b != '=',
    ensures
        pair_of(seq![a, b, '='] + v) == (seq![a, b], v),
{
    let p = seq![a, b, '='] + v;
    assert(p[0] == a && p[1] == b && p[2] == '=');
    lemma_find_char_at(p, 0, 2, '=');
    assert(p.subrange(0, 2) =~= seq![a, b]);
    assert(p.subrange(3, p.len() as int) =~= v);
}

proof fn lemma_hex_text_no_amp(h: Seq<u8>)
    requires
        h.len() == 20,
    ensures
        forall|k: int| 0 <= k < (urn_chars() + spec_hex_lower(h)).len() ==> #[trigger] (urn_chars()
            + spec_hex_lower(h))[k] != '&',
{
    let x = urn_chars() + spec_hex_lower(h);
    assert forall|k: int| 0 <= k < x.len() implies #[trigger] x[k] != '&' by {
        if k >= 9 {
            assert(x[k] == spec_hex_lower(h)[k - 9]);
        }
    }
}

/// The info hash comes from the first `xt` parameter: a magnet URI whose
/// first parameter is `xt=urn:btih:<hex of h>` parses to `h`, whatever
/// parameters follow it.
pub proof fn law_first_xt_decides(h: Seq<u8>, rest: Seq<char>)
    requires
        h.len() == 20,
    ensures
        spec_parse_magnet(
            magnet_scheme() + seq!['x', 't', '='] + urn_chars() + spec_hex_lower(h) + seq!['&']
                + rest,
        ) matches Ok(m) && m.info_hash == h,
{
    let xt = urn_chars() + spec_hex_lower(h);
    let u = magnet_scheme() + seq!['x', 't', '='] + urn_chars() + spec_hex_lower(h) + seq!['&']
        + rest;
    assert(u =~= magnet_scheme() + seq!['x', 't', '='] + xt + seq!['&'] + rest);
    lemma_hex_text_no_amp(h);
    assert(xt.len() == 49);
    assert(u[60] == '&');
    assert forall|k: int| 8 <= k < 60 implies u[k] != '&' by {
        if k >= 11 {
            assert(u[k] == xt[k - 11]);
        }
    }
    lemma_split_head(u, 8, 60);
    let p0 = u.subrange(8, 60);
    assert(p0 =~= seq!['x', 't', '='] + xt);
    lemma_pair_of_key('x', 't', xt);
    let ps = split_from(u, 8, '&');
    assert(ps[0] == p0);
    assert(first_value(ps, 0, seq!['x', 't']) == Some(xt));
    law_info_hash_hex_roundtrip(h);
    assert(u.subrange(0, 8) =~= magnet_scheme());
}

/// The display name is the value of the first `dn` parameter, decoded as
/// `url_decode` decodes it.
pub proof fn law_first_dn_decoded(h: Seq<u8>, name: Seq<char>, rest: Seq<char>)
    requires
        h.len() == 20,
        forall|k: int| 0 <= k < name.len() ==> name[k] != '&',
    ensures
        spec_parse_magnet(
            magnet_scheme() + seq!['x', 't', '='] + urn_chars() + spec_hex_lower(h) + seq![
                '&',
                'd',
                'n',
                '=',
            ] + name + seq!['&'] + rest,
        ) matches Ok(m) && m.info_hash == h && m.display_name == Some(spec_url_decode(name, 0)),
{
    let xt = urn_chars() + spec_hex_lower(h);
    let u = magnet_scheme() + seq!['x', 't', '='] + urn_chars() + spec_hex_lower(h) + seq![
        '&',
        'd',
        'n',
        '=',
    ] + name + seq!['&'] + rest;
    assert(u =~= magnet_scheme() + seq!['x', 't', '='] + xt + seq!['&', 'd', 'n', '='] + name
        + seq!['&'] + rest);
    let e: int = 64 + name.len() as int;
    lemma_hex_text_no_amp(h);
    assert(xt.len() == 49);
    assert(u[60] == '&');
    assert forall|k: int| 8 <= k < 60 implies u[k] != '&' by {
        if k >= 11 {
            assert(u[k] == xt[k - 11]);
        }
    }
    assert(u[e] == '&');
    assert forall|k: int| 61 <= k < e implies u[k] != '&' by {
        if k >= 64 {
            assert(u[k] == name[k - 64]);
        }
    }
    lemma_split_head(u, 8, 60);
    lemma_split_head(u, 61, e);
    let p0 = u.subrange(8, 60);
    let p1 = u.subrange(61, e);
    assert(p0 =~= seq!['x', 't', '='] + xt);
    assert(p1 =~= seq!['d', 'n', '='] + name);
    lemma_pair_of_key('x', 't', xt);
    lemma_pair_of_key('d', 'n', name);
    let ps = split_from(u, 8, '&');
    assert(ps[0] == p0);
    assert(ps[1] == p1);
    assert(seq!['x', 't'] != seq!['d', 'n']) by {
        assert(seq!['x', 't'][0] != seq!['d', 'n'][0]);
    }
    assert(first_value(ps, 1, seq!['d', 'n']) == Some(name));
    assert(first_value(ps, 0, seq!['d', 'n']) == Some(name));
    assert(first_value(ps, 0, seq!['x', 't']) == Some(xt));
    law_info_hash_hex_roundtrip(h);
    assert(u.subrange(0, 8) =~= magnet_scheme());
}

/// Whether a character is a hexadecimal digit, either case.
pub open spec fn is_hex_char(c: char) -> bool {
    ('0' <= c <= '9') || ('a' <= c <= 'f') || ('A' <= c <= 'F')
}

/// The value of a hexadecimal digit character.
pub open spec fn hex_char_value(c: char) -> int {
    if c <= '9' {
        c as int - 48
    } else if c <= 'F' {
        c as int - 55
    } else {
        c as int - 87
    }
}

/// `%` and two hexadecimal digits decode to the character whose code is
/// the byte they write.
pub proof fn law_url_decode_escape(s: Seq<char>, i: int)
    requires
        0 <= i,
        i + 3 <= s.len(),
        s[i] == '%',
        is_hex_char(s[i + 1]),
        is_hex_char(s[i + 2]),
    ensures
        spec_url_decode(s, i) == seq![
            ((hex_char_value(s[i + 1]) * 16 + hex_char_value(s[i + 2])) as u8) as char,
        ] + spec_url_decode(s, i + 3),
{
    let hex = s.subrange(i + 1, i + 3);
    assert(hex.len() == 2);
    assert(hex[0] == s[i + 1]);
    assert(hex[1] == s[i + 2]);
    assert(is_ascii_chars(hex));
    is_ascii_chars_encode_utf8(hex);
    let d = encode_utf8(hex);
    let x = d[0];
    let y = d[1];
    assert(x == s[i + 1] as u8) by {
        assert(hex[0] as u8 == d[0]);
    }
    assert(y == s[i + 2] as u8) by {
        assert(hex[1] as u8 == d[1]);
    }
    assert(d =~= seq![x, y]);
    assert(crate::num::unsigned_digits(d) == d);
    assert(d.drop_last() =~= seq![x]);
    assert(seq![x].drop_last() =~= Seq::<u8>::empty());
    assert(crate::num::hex_value(Seq::<u8>::empty()) == 0);
    assert(crate::num::hex_value(seq![x]) == hex_digit_value(x));
    assert(crate::num::hex_value(d) == hex_digit_value(x) * 16 + hex_digit_value(y));
    assert(spec_parse_hex_u8(d) == Some(
        (hex_digit_value(x) * 16 + hex_digit_value(y)) as u8,
    ));
}

} // verus!

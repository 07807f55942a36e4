//! Bencode decoder: a recursive-descent parser from bytes to a [`Value`] tree.
//!
//! The grammar is stated by the spec functions `parse_value_at` and its
//! companions; the executable decoder follows it position by position.

use super::{
    Dictionary, Value, ValueModel, bytes_lt, compare_bytes, lemma_bytes_lt_irreflexive,
    lemma_bytes_lt_transitive, list_model,
};
use crate::num::{is_digit, parse_i64, parse_unsigned, spec_parse_i64, spec_parse_unsigned};
use vstd::prelude::*;
use vstd::slice::slice_to_vec;

verus! {

/// Why a byte string is not bencode, with the position where decoding stopped.
#[derive(Debug, Clone, Copy, PartialEq, Eq, Structural)]
pub enum DecodeError {
    UnexpectedEof(usize),
    InvalidInteger(usize),
    InvalidStringLength(usize),
    UnexpectedByte(u8, usize),
    InvalidDictKey(usize),
    TrailingData(usize),
}

/// What the decoder returns from position `p`: a value and the position after it.
pub type ParseResult = Result<(ValueModel, int), DecodeError>;

/// The first position at or after `from` that holds `b`, or the end.
pub open spec fn find_byte(d: Seq<u8>, from: int, b: u8) -> int
    decreases d.len() - from,
{
    if from < 0 || from >= d.len() {
        d.len() as int
    } else if d[from] == b {
        from
    } else {
        find_byte(d, from + 1, b)
    }
}

/// `i<digits>e`, with `d[p] == 'i'`.
pub open spec fn parse_integer_at(d: Seq<u8>, p: int) -> ParseResult {
    let start = p + 1;
    let end = find_byte(d, start, 101);
    match spec_parse_i64(d.subrange(start, end)) {
        None => Err(DecodeError::InvalidInteger(start as usize)),
        Some(n) => if end >= d.len() {
            Err(DecodeError::UnexpectedEof(end as usize))
        } else {
            Ok((ValueModel::Int(n), end + 1))
        },
    }
}

/// `<length>:<bytes>`, with a digit at `d[p]`.
pub open spec fn parse_bytes_at(d: Seq<u8>, p: int) -> ParseResult {
    let colon = find_byte(d, p, 58);
    match spec_parse_unsigned(d.subrange(p, colon), usize::MAX as nat) {
        None => Err(DecodeError::InvalidStringLength(p as usize)),
        Some(n) => if colon >= d.len() {
            Err(DecodeError::UnexpectedEof(colon as usize))
        } else if colon + 1 + n > d.len() {
            Err(DecodeError::UnexpectedEof((colon + 1) as usize))
        } else {
            Ok((ValueModel::Bytes(d.subrange(colon + 1, colon + 1 + n)), colon + 1 + n))
        },
    }
}

/// Any value, chosen by its first byte.
pub open spec fn parse_value_at(d: Seq<u8>, p: int) -> ParseResult
    decreases d.len() - p, 0int,
{
    if p < 0 || p >= d.len() {
        Err(DecodeError::UnexpectedEof(p as usize))
    } else if d[p] == 105 {
        parse_integer_at(d, p)
    } else if d[p] == 108 {
        parse_list_at(d, p + 1, Seq::empty())
    } else if d[p] == 100 {
        parse_dict_at(d, p + 1, Map::empty(), None)
    } else if is_digit(d[p]) {
        parse_bytes_at(d, p)
    } else {
        Err(DecodeError::UnexpectedByte(d[p], p as usize))
    }
}

/// The items of a list from `p` on up to its `e`, after the items `acc`.
pub open spec fn parse_list_at(d: Seq<u8>, p: int, acc: Seq<ValueModel>) -> ParseResult
    decreases d.len() - p, 1int,
{
    if p < 0 || p >= d.len() {
        Err(DecodeError::UnexpectedEof(p as usize))
    } else if d[p] == 101 {
        Ok((ValueModel::List(acc), p + 1))
    } else {
        match parse_value_at(d, p) {
            Err(e) => Err(e),
            Ok((v, q)) => if p < q <= d.len() {
                parse_list_at(d, q, acc.push(v))
            } else {
                Err(DecodeError::UnexpectedEof(q as usize))
            },
        }
    }
}

/// Whether a key may follow the previous one: keys come in strictly
/// increasing byte order, so none comes twice.
pub open spec fn key_follows(last: Option<Seq<u8>>, key: Seq<u8>) -> bool {
    match last {
        Some(l) => bytes_lt(l, key),
        None => true,
    }
}

/// The entries of a dictionary from `p` on up to its `e`, after the entries
/// `acc` whose last key is `last`. A key that is not a byte string, or that
/// does not come after the previous key in byte order, is refused at its
/// position.
pub open spec fn parse_dict_at(
    d: Seq<u8>,
    p: int,
    acc: Map<Seq<u8>, ValueModel>,
    last: Option<Seq<u8>>,
) -> ParseResult
    decreases d.len() - p, 1int,
{
    if p < 0 || p >= d.len() {
        Err(DecodeError::UnexpectedEof(p as usize))
    } else if d[p] == 101 {
        Ok((ValueModel::Dict(acc), p + 1))
    } else {
        match parse_value_at(d, p) {
            Err(e) => Err(e),
            Ok((k, q)) => match k {
                ValueModel::Bytes(key) => if !key_follows(last, key) {
                    Err(DecodeError::InvalidDictKey(p as usize))
                } else if p < q <= d.len() {
                    match parse_value_at(d, q) {
                        Err(e) => Err(e),
                        Ok((v, r)) => if q < r <= d.len() {
                            parse_dict_at(d, r, acc.insert(key, v), Some(key))
                        } else {
                            Err(DecodeError::UnexpectedEof(r as usize))
                        },
                    }
                } else {
                    Err(DecodeError::UnexpectedEof(q as usize))
                },
                _ => Err(DecodeError::InvalidDictKey(p as usize)),
            },
        }
    }
}

/// Where the value of `key` lies among the entries of a dictionary from `p`
/// on, read as `parse_dict_at` reads them after the key `last`: the start
/// and end of the first value whose key is `key`, `None` when the
/// dictionary ends first. Entries after that value are not read.
pub open spec fn span_in_dict(d: Seq<u8>, p: int, last: Option<Seq<u8>>, key: Seq<u8>) -> Result<
    Option<(int, int)>,
    DecodeError,
>
    decreases d.len() - p,
{
    if p < 0 || p >= d.len() {
        Err(DecodeError::UnexpectedEof(p as usize))
    } else if d[p] == 101 {
        Ok(None)
    } else {
        match parse_value_at(d, p) {
            Err(e) => Err(e),
            Ok((k, q)) => match k {
                ValueModel::Bytes(kb) => if !key_follows(last, kb) {
                    Err(DecodeError::InvalidDictKey(p as usize))
                } else if p < q <= d.len() {
                    match parse_value_at(d, q) {
                        Err(e) => Err(e),
                        Ok((v, r)) => if q < r <= d.len() {
                            if kb == key {
                                Ok(Some((q, r)))
                            } else {
                                span_in_dict(d, r, Some(kb), key)
                            }
                        } else {
                            Err(DecodeError::UnexpectedEof(r as usize))
                        },
                    }
                } else {
                    Err(DecodeError::UnexpectedEof(q as usize))
                },
                _ => Err(DecodeError::InvalidDictKey(p as usize)),
            },
        }
    }
}

/// Where the value of `key` lies in the top-level dictionary of `d`; `None`
/// when `d` does not start a dictionary or the dictionary has no such key.
pub open spec fn spec_value_span(d: Seq<u8>, key: Seq<u8>) -> Result<Option<(int, int)>, DecodeError> {
    if d.len() > 0 && d[0] == 100 {
        span_in_dict(d, 1, None, key)
    } else {
        Ok(None)
    }
}

/// The result of `decode`: a whole value that ends exactly at the end.
pub open spec fn spec_decode(d: Seq<u8>) -> Result<ValueModel, DecodeError> {
    match parse_value_at(d, 0) {
        Err(e) => Err(e),
        Ok((v, q)) => if q != d.len() {
            Err(DecodeError::TrailingData(q as usize))
        } else {
            Ok(v)
        },
    }
}

/// The previous key, as bytes.
spec fn key_model(last: Option<Vec<u8>>) -> Option<Seq<u8>> {
    match last {
        Some(k) => Some(k@),
        None => None,
    }
}

/// A cursor over the input.
struct Decoder<'a> {
    data: &'a [u8],
    pos: usize,
}

impl<'a> Decoder<'a> {
    fn new(data: &'a [u8]) -> (r: Self)
        ensures
            r.data@ == data@,
            r.pos == 0,
    {
        Decoder { data, pos: 0 }
    }

    /// The current byte.
    fn peek(&self) -> (r: Result<u8, DecodeError>)
        ensures
            self.pos < self.data@.len() ==> r == Ok::<u8, DecodeError>(self.data@[self.pos as int]),
            self.pos >= self.data@.len() ==> r == Err::<u8, DecodeError>(
                DecodeError::UnexpectedEof(self.pos),
            ),
    {
        if self.pos < self.data.len() {
            Ok(self.data[self.pos])
        } else {
            Err(DecodeError::UnexpectedEof(self.pos))
        }
    }

    /// Consume the current byte.
    fn advance(&mut self) -> (r: Result<u8, DecodeError>)
        ensures
            final(self).data@ == old(self).data@,
            old(self).pos < old(self).data@.len() ==> r == Ok::<u8, DecodeError>(
                old(self).data@[old(self).pos as int],
            ) && final(self).pos == old(self).pos + 1,
            old(self).pos >= old(self).data@.len() ==> r == Err::<u8, DecodeError>(
                DecodeError::UnexpectedEof(old(self).pos),
            ),
    {
        let len = self.data.len();
        match self.peek() {
            Ok(byte) => {
                assert(self.pos < len);
                self.pos += 1;
                Ok(byte)
            },
            Err(e) => Err(e),
        }
    }

    /// Consume the current byte, which must be `expected`.
    fn expect(&mut self, expected: u8) -> (r: Result<(), DecodeError>)
        ensures
            final(self).data@ == old(self).data@,
            old(self).pos < old(self).data@.len() && old(self).data@[old(self).pos as int]
                == expected ==> r is Ok && final(self).pos == old(self).pos + 1,
            old(self).pos < old(self).data@.len() && old(self).data@[old(self).pos as int]
                != expected ==> r == Err::<(), DecodeError>(
                DecodeError::UnexpectedByte(old(self).data@[old(self).pos as int], old(self).pos),
            ),
            old(self).pos >= old(self).data@.len() ==> r == Err::<(), DecodeError>(
                DecodeError::UnexpectedEof(old(self).pos),
            ),
    {
        let byte = self.advance()?;
        if byte != expected {
            Err(DecodeError::UnexpectedByte(byte, self.pos - 1))
        } else {
            Ok(())
        }
    }

    /// Any value.
    fn parse_value(&mut self) -> (r: Result<Value, DecodeError>)
        requires
            old(self).pos <= old(self).data@.len(),
        ensures
            final(self).data@ == old(self).data@,
            match parse_value_at(old(self).data@, old(self).pos as int) {
                Ok((v, q)) => r matches Ok(x) && x.model() == v && final(self).pos == q && old(
                    self,
                ).pos < q <= old(self).data@.len(),
                Err(e) => r == Err::<Value, DecodeError>(e),
            },
        decreases old(self).data@.len() - old(self).pos, 1nat,
    {
        let b = self.peek()?;
        if b == 105 {
            self.parse_integer()
        } else if b == 108 {
            self.parse_list()
        } else if b == 100 {
            self.parse_dict()
        } else if b >= 48 && b <= 57 {
            self.parse_bytes()
        } else {
            Err(DecodeError::UnexpectedByte(b, self.pos))
        }
    }

    /// `i<number>e`.
    fn parse_integer(&mut self) -> (r: Result<Value, DecodeError>)
        requires
            old(self).pos < old(self).data@.len(),
            old(self).data@[old(self).pos as int] == 105,
        ensures
            final(self).data@ == old(self).data@,
            match parse_integer_at(old(self).data@, old(self).pos as int) {
                Ok((v, q)) => r matches Ok(x) && x.model() == v && final(self).pos == q && old(
                    self,
                ).pos < q <= old(self).data@.len(),
                Err(e) => r == Err::<Value, DecodeError>(e),
            },
    {
        let ghost d = self.data@;
        self.expect(105)?;
        let start = self.pos;
        while self.pos < self.data.len() && self.data[self.pos] != 101
            invariant
                self.data@ == d,
                start <= self.pos <= d.len(),
                find_byte(d, start as int, 101) == find_byte(d, self.pos as int, 101),
            decreases d.len() - self.pos,
        {
            self.pos += 1;
        }
        let num = parse_i64(&self.data[start..self.pos]);
        match num {
            None => Err(DecodeError::InvalidInteger(start)),
            Some(n) => {
                self.expect(101)?;
                Ok(Value::Integer(n))
            },
        }
    }

    /// `<length>:<bytes>`.
    fn parse_bytes(&mut self) -> (r: Result<Value, DecodeError>)
        requires
            old(self).pos < old(self).data@.len(),
            is_digit(old(self).data@[old(self).pos as int]),
        ensures
            final(self).data@ == old(self).data@,
            match parse_bytes_at(old(self).data@, old(self).pos as int) {
                Ok((v, q)) => r matches Ok(x) && x.model() == v && final(self).pos == q && old(
                    self,
                ).pos < q <= old(self).data@.len(),
                Err(e) => r == Err::<Value, DecodeError>(e),
            },
    {
        let ghost d = self.data@;
        let start = self.pos;
        while self.pos < self.data.len() && self.data[self.pos] != 58
            invariant
                self.data@ == d,
                start <= self.pos <= d.len(),
                find_byte(d, start as int, 58) == find_byte(d, self.pos as int, 58),
            decreases d.len() - self.pos,
        {
            self.pos += 1;
        }
        let length = match parse_unsigned(&self.data[start..self.pos], usize::MAX as u64) {
            None => {
                return Err(DecodeError::InvalidStringLength(start));
            },
            Some(n) => n as usize,
        };
        self.expect(58)?;
        if length > self.data.len() - self.pos {
            return Err(DecodeError::UnexpectedEof(self.pos));
        }
        let bytes = slice_to_vec(&self.data[self.pos..self.pos + length]);
        self.pos += length;
        Ok(Value::Bytes(bytes))
    }

    /// `l<values>e`.
    fn parse_list(&mut self) -> (r: Result<Value, DecodeError>)
        requires
            old(self).pos < old(self).data@.len(),
            old(self).data@[old(self).pos as int] == 108,
        ensures
            final(self).data@ == old(self).data@,
            match parse_list_at(old(self).data@, old(self).pos + 1, Seq::empty()) {
                Ok((v, q)) => r matches Ok(x) && x.model() == v && final(self).pos == q && old(
                    self,
                ).pos < q <= old(self).data@.len(),
                Err(e) => r == Err::<Value, DecodeError>(e),
            },
        decreases old(self).data@.len() - old(self).pos, 0nat,
    {
        let ghost d = self.data@;
        let ghost p0 = self.pos;
        self.expect(108)?;
        let mut items: Vec<Value> = Vec::new();
        loop
            invariant
                self.data@ == d,
                d == old(self).data@,
                p0 == old(self).pos,
                p0 < self.pos <= d.len(),
                parse_list_at(d, p0 + 1, Seq::empty()) == parse_list_at(
                    d,
                    self.pos as int,
                    list_model(items@),
                ),
            ensures
                self.data@ == d,
                p0 < self.pos < d.len(),
                d[self.pos as int] == 101,
                parse_list_at(d, p0 + 1, Seq::empty()) == parse_list_at(
                    d,
                    self.pos as int,
                    list_model(items@),
                ),
            decreases d.len() - self.pos,
        {
            let b = self.peek()?;
            if b == 101 {
                break;
            }
            let v = self.parse_value()?;
            proof {
                assert(items@.push(v).drop_last() =~= items@);
            }
            items.push(v);
        }
        self.expect(101)?;
        Ok(Value::List(items))
    }

    /// `d<key><value>...e`, where each key is a byte string.
    fn parse_dict(&mut self) -> (r: Result<Value, DecodeError>)
        requires
            old(self).pos < old(self).data@.len(),
            old(self).data@[old(self).pos as int] == 100,
        ensures
            final(self).data@ == old(self).data@,
            match parse_dict_at(old(self).data@, old(self).pos + 1, Map::empty(), None) {
                Ok((v, q)) => r matches Ok(x) && x.model() == v && final(self).pos == q && old(
                    self,
                ).pos < q <= old(self).data@.len(),
                Err(e) => r == Err::<Value, DecodeError>(e),
            },
        decreases old(self).data@.len() - old(self).pos, 0nat,
    {
        let ghost d = self.data@;
        let ghost p0 = self.pos;
        self.expect(100)?;
        let mut map = Dictionary::new();
        let mut last: Option<Vec<u8>> = None;
        loop
            invariant
                self.data@ == d,
                d == old(self).data@,
                p0 == old(self).pos,
                p0 < self.pos <= d.len(),
                parse_dict_at(d, p0 + 1, Map::empty(), None) == parse_dict_at(
                    d,
                    self.pos as int,
                    map.model_map(),
                    key_model(last),
                ),
            ensures
                self.data@ == d,
                p0 < self.pos < d.len(),
                d[self.pos as int] == 101,
                parse_dict_at(d, p0 + 1, Map::empty(), None) == parse_dict_at(
                    d,
                    self.pos as int,
                    map.model_map(),
                    key_model(last),
                ),
            decreases d.len() - self.pos,
        {
            let b = self.peek()?;
            if b == 101 {
                break;
            }
            let key_pos = self.pos;
            let key_val = self.parse_value()?;
            let key = match key_val {
                Value::Bytes(b) => b,
                _ => {
                    return Err(DecodeError::InvalidDictKey(key_pos));
                },
            };
            let in_order = match &last {
                Some(prev) => compare_bytes(prev.as_slice(), key.as_slice()).is_less(),
                None => true,
            };
            if !in_order {
                return Err(DecodeError::InvalidDictKey(key_pos));
            }
            let value = self.parse_value()?;
            let key_copy = key.clone();
            map.insert(key, value);
            last = Some(key_copy);
        }
        self.expect(101)?;
        Ok(Value::Dict(map))
    }
}

/// Decode a bencoded byte string into a [`Value`]; the value must take up the
/// whole input.
pub fn decode(data: &[u8]) -> (r: Result<Value, DecodeError>)
    ensures
        match spec_decode(data@) {
            Ok(v) => r matches Ok(x) && x.model() == v,
            Err(e) => r == Err::<Value, DecodeError>(e),
        },
{
    let mut decoder = Decoder::new(data);
    let value = decoder.parse_value()?;
    if decoder.pos != data.len() {
        return Err(DecodeError::TrailingData(decoder.pos));
    }
    Ok(value)
}

/// Decode the value at the start of a byte string, returning it and the
/// number of bytes it takes up; the bytes after it are not read.
pub fn decode_partial(data: &[u8]) -> (r: Result<(Value, usize), DecodeError>)
    ensures
        match parse_value_at(data@, 0) {
            Ok((v, q)) => r matches Ok((x, n)) && x.model() == v && n == q && 0 < n <= data@.len(),
            Err(e) => r == Err::<(Value, usize), DecodeError>(e),
        },
{
    let mut decoder = Decoder::new(data);
    let value = decoder.parse_value()?;
    Ok((value, decoder.pos))
}

/// Find the bytes of the value of `key` in the top-level dictionary of
/// `data`, reading the entries up to that value.
pub fn value_span(data: &[u8], key: &[u8]) -> (r: Result<Option<(usize, usize)>, DecodeError>)
    ensures
        match spec_value_span(data@, key@) {
            Ok(None) => r matches Ok(None),
            Ok(Some((s, e))) => r matches Ok(Some((a, b))) && a == s && b == e,
            Err(x) => r == Err::<Option<(usize, usize)>, DecodeError>(x),
        },
        r matches Ok(Some((a, b))) ==> a < b <= data@.len(),
{
    if data.len() == 0 || data[0] != 100 {
        return Ok(None);
    }
    let ghost d = data@;
    let mut dec = Decoder::new(data);
    dec.pos = 1;
    let mut last: Option<Vec<u8>> = None;
    loop
        invariant
            dec.data@ == d,
            d == data@,
            d.len() > 0 && d[0] == 100,
            0 < dec.pos <= d.len(),
            spec_value_span(d, key@) == span_in_dict(d, dec.pos as int, key_model(last), key@),
        decreases d.len() - dec.pos,
    {
        let b = dec.peek()?;
        if b == 101 {
            return Ok(None);
        }
        let key_pos = dec.pos;
        let key_val = dec.parse_value()?;
        let k = match key_val {
            Value::Bytes(b) => b,
            _ => {
                return Err(DecodeError::InvalidDictKey(key_pos));
            },
        };
        let in_order = match &last {
            Some(prev) => compare_bytes(prev.as_slice(), k.as_slice()).is_less(),
            None => true,
        };
        if !in_order {
            return Err(DecodeError::InvalidDictKey(key_pos));
        }
        let start = dec.pos;
        let _value = dec.parse_value()?;
        let end = dec.pos;
        if compare_bytes(k.as_slice(), key).is_equal() {
            return Ok(Some((start, end)));
        }
        last = Some(k);
    }
}

/// `decode` accepts exactly the inputs that `decode_partial` reads whole,
/// with the same value.
pub proof fn law_decode_is_whole_partial(d: Seq<u8>)
    ensures
        (spec_decode(d) is Ok) <==> (parse_value_at(d, 0) matches Ok((_, q)) && q == d.len()),
        spec_decode(d) matches Ok(v) ==> parse_value_at(d, 0) == Ok::<(ValueModel, int), DecodeError>(
            (v, d.len() as int),
        ),
{
}

/// A value read from position `p` takes up at least one byte and ends
/// within the input.
pub proof fn law_parse_progress(d: Seq<u8>, p: int)
    requires
        0 <= p <= d.len(),
    ensures
        parse_value_at(d, p) matches Ok((_, q)) ==> p < q <= d.len(),
    decreases d.len() - p, 0int,
{
    if p < d.len() {
        if d[p] == 108 {
            law_list_progress(d, p + 1, Seq::empty());
        } else if d[p] == 100 {
            law_dict_progress(d, p + 1, Map::empty(), None);
        } else if d[p] == 105 {
            lemma_find_byte_bounds(d, p + 1, 101);
        } else if is_digit(d[p]) {
            lemma_find_byte_bounds(d, p, 58);
        }
    }
}

proof fn law_list_progress(d: Seq<u8>, p: int, acc: Seq<ValueModel>)
    requires
        0 <= p <= d.len(),
    ensures
        parse_list_at(d, p, acc) matches Ok((_, q)) ==> p < q <= d.len(),
    decreases d.len() - p, 1int,
{
    if p < d.len() && d[p] != 101 {
        law_parse_progress(d, p);
        if let Ok((v, q)) = parse_value_at(d, p) {
            if p < q <= d.len() {
                law_list_progress(d, q, acc.push(v));
            }
        }
    }
}

proof fn law_dict_progress(
    d: Seq<u8>,
    p: int,
    acc: Map<Seq<u8>, ValueModel>,
    last: Option<Seq<u8>>,
)
    requires
        0 <= p <= d.len(),
    ensures
        parse_dict_at(d, p, acc, last) matches Ok((_, q)) ==> p < q <= d.len(),
    decreases d.len() - p, 1int,
{
    if p < d.len() && d[p] != 101 {
        law_parse_progress(d, p);
        if let Ok((k, q)) = parse_value_at(d, p) {
            if let ValueModel::Bytes(key) = k {
                if p < q <= d.len() {
                    law_parse_progress(d, q);
                    if let Ok((v, r)) = parse_value_at(d, q) {
                        if q < r <= d.len() {
                            law_dict_progress(d, r, acc.insert(key, v), Some(key));
                        }
                    }
                }
            }
        }
    }
}

proof fn lemma_list_result(d: Seq<u8>, p: int, acc: Seq<ValueModel>)
    ensures
        parse_list_at(d, p, acc) matches Ok((v, _)) ==> v is List,
    decreases d.len() - p,
{
    if 0 <= p < d.len() && d[p] != 101 {
        if let Ok((v, q)) = parse_value_at(d, p) {
            if p < q <= d.len() {
                lemma_list_result(d, q, acc.push(v));
            }
        }
    }
}

proof fn lemma_dict_result(d: Seq<u8>, p: int, acc: Map<Seq<u8>, ValueModel>, last: Option<Seq<u8>>)
    ensures
        parse_dict_at(d, p, acc, last) matches Ok((v, _)) ==> v is Dict,
    decreases d.len() - p,
{
    if 0 <= p < d.len() && d[p] != 101 {
        if let Ok((ValueModel::Bytes(kb), q)) = parse_value_at(d, p) {
            if key_follows(last, kb) && p < q <= d.len() {
                if let Ok((v, r)) = parse_value_at(d, q) {
                    if q < r <= d.len() {
                        lemma_dict_result(d, r, acc.insert(kb, v), Some(kb));
                    }
                }
            }
        }
    }
}

/// An entry read before the key `last`, at or below it, stays as it is:
/// later keys are all greater.
proof fn lemma_dict_keeps(
    d: Seq<u8>,
    p: int,
    acc: Map<Seq<u8>, ValueModel>,
    last: Seq<u8>,
    k: Seq<u8>,
)
    requires
        acc.contains_key(k),
        !bytes_lt(last, k),
    ensures
        parse_dict_at(d, p, acc, Some(last)) matches Ok((ValueModel::Dict(m), _)) ==> m.contains_key(
            k,
        ) && m[k] == acc[k],
    decreases d.len() - p,
{
    if 0 <= p < d.len() && d[p] != 101 {
        if let Ok((ValueModel::Bytes(kb), q)) = parse_value_at(d, p) {
            if bytes_lt(last, kb) && p < q <= d.len() {
                if let Ok((v, r)) = parse_value_at(d, q) {
                    if q < r <= d.len() {
                        assert(k != kb);
                        if bytes_lt(kb, k) {
                            lemma_bytes_lt_transitive(last, kb, k);
                        }
                        lemma_dict_keeps(d, r, acc.insert(kb, v), kb, k);
                    }
                }
            }
        }
    }
}

/// Looking for a key walks the entries as parsing them does: it finds the
/// value that the parsed dictionary holds for the key.
proof fn lemma_span_in_dict(
    d: Seq<u8>,
    p: int,
    acc: Map<Seq<u8>, ValueModel>,
    last: Option<Seq<u8>>,
    key: Seq<u8>,
)
    requires
        parse_dict_at(d, p, acc, last) matches Ok((ValueModel::Dict(_), _)),
    ensures
        span_in_dict(d, p, last, key) is Ok,
        ({
            let m = parse_dict_at(d, p, acc, last)->Ok_0.0->Dict_0;
            &&& span_in_dict(d, p, last, key) matches Ok(Some((s, e))) ==> p < s < e <= d.len()
                && m.contains_key(key) && parse_value_at(d, s) == Ok::<
                (ValueModel, int),
                DecodeError,
            >((m[key], e))
            &&& span_in_dict(d, p, last, key) == Ok::<Option<(int, int)>, DecodeError>(None) ==> (
            m.contains_key(key) ==> acc.contains_key(key))
        }),
    decreases d.len() - p,
{
    if d[p] != 101 {
        let (kv, q) = parse_value_at(d, p)->Ok_0;
        let kb = kv->Bytes_0;
        let (v, r) = parse_value_at(d, q)->Ok_0;
        if kb == key {
            lemma_bytes_lt_irreflexive(kb);
            lemma_dict_keeps(d, r, acc.insert(kb, v), kb, kb);
        } else {
            lemma_span_in_dict(d, r, acc.insert(kb, v), Some(kb), key);
        }
    }
}

/// A value that parses as a dictionary starts with `d`.
pub proof fn lemma_dict_starts(d: Seq<u8>, p: int)
    ensures
        parse_value_at(d, p) matches Ok((ValueModel::Dict(_), _)) ==> 0 <= p < d.len() && d[p]
            == 100,
{
    if 0 <= p < d.len() && d[p] == 108 {
        lemma_list_result(d, p + 1, Seq::empty());
    }
}

/// In a decoded dictionary, the bytes that `value_span` finds for a key
/// are those of the value that the dictionary holds for it.
pub proof fn law_value_span(d: Seq<u8>, key: Seq<u8>)
    requires
        spec_decode(d) matches Ok(v) && v.lookup(key) is Some,
    ensures
        spec_value_span(d, key) matches Ok(Some((s, e))) && 0 < s < e <= d.len()
            && parse_value_at(d, s) == Ok::<(ValueModel, int), DecodeError>(
            (spec_decode(d)->Ok_0.lookup(key)->Some_0, e),
        ),
{
    lemma_dict_starts(d, 0);
    lemma_span_in_dict(d, 1, Map::empty(), None, key);
}

/// Two byte strings that agree on their first `n` bytes.
pub open spec fn agree_upto(d: Seq<u8>, d2: Seq<u8>, n: int) -> bool {
    &&& 0 <= n <= d.len()
    &&& n <= d2.len()
    &&& forall|i: int| 0 <= i < n ==> d[i] == d2[i]
}

proof fn lemma_find_byte_local(d: Seq<u8>, d2: Seq<u8>, from: int, b: u8, n: int)
    requires
        0 <= from,
        find_byte(d, from, b) < n,
        agree_upto(d, d2, n),
    ensures
        find_byte(d2, from, b) == find_byte(d, from, b),
    decreases d.len() - from,
{
    if from < d.len() {
        lemma_find_byte_bounds(d, from, b);
        assert(d[from] == d2[from]);
        if d[from] != b {
            lemma_find_byte_local(d, d2, from + 1, b, n);
        }
    }
}

/// A value is read from its own bytes only: another byte string that
/// agrees up to the end of the value reads the same value.
proof fn lemma_parse_local(d: Seq<u8>, d2: Seq<u8>, p: int, n: int)
    requires
        agree_upto(d, d2, n),
        parse_value_at(d, p) matches Ok((_, q)) && q <= n,
    ensures
        parse_value_at(d2, p) == parse_value_at(d, p),
    decreases d.len() - p, 0int,
{
    law_parse_progress(d, p);
    if d[p] == 105 {
        lemma_find_byte_bounds(d, p + 1, 101);
        lemma_find_byte_local(d, d2, p + 1, 101, n);
        let end = find_byte(d, p + 1, 101);
        assert(d.subrange(p + 1, end) =~= d2.subrange(p + 1, end));
    } else if d[p] == 108 {
        lemma_list_local(d, d2, p + 1, Seq::empty(), n);
    } else if d[p] == 100 {
        lemma_dict_local(d, d2, p + 1, Map::empty(), None, n);
    } else if is_digit(d[p]) {
        lemma_find_byte_bounds(d, p, 58);
        lemma_find_byte_local(d, d2, p, 58, n);
        let colon = find_byte(d, p, 58);
        assert(d.subrange(p, colon) =~= d2.subrange(p, colon));
        let len = spec_parse_unsigned(d.subrange(p, colon), usize::MAX as nat)->Some_0;
        assert(d.subrange(colon + 1, colon + 1 + len) =~= d2.subrange(colon + 1, colon + 1 + len));
    }
}

proof fn lemma_list_local(d: Seq<u8>, d2: Seq<u8>, p: int, acc: Seq<ValueModel>, n: int)
    requires
        agree_upto(d, d2, n),
        parse_list_at(d, p, acc) matches Ok((_, q)) && q <= n,
    ensures
        parse_list_at(d2, p, acc) == parse_list_at(d, p, acc),
    decreases d.len() - p, 1int,
{
    if d[p] != 101 {
        let (v, q) = parse_value_at(d, p)->Ok_0;
        law_list_progress(d, q, acc.push(v));
        lemma_parse_local(d, d2, p, n);
        lemma_list_local(d, d2, q, acc.push(v), n);
    }
}

proof fn lemma_dict_local(
    d: Seq<u8>,
    d2: Seq<u8>,
    p: int,
    acc: Map<Seq<u8>, ValueModel>,
    last: Option<Seq<u8>>,
    n: int,
)
    requires
        agree_upto(d, d2, n),
        parse_dict_at(d, p, acc, last) matches Ok((_, q)) && q <= n,
    ensures
        parse_dict_at(d2, p, acc, last) == parse_dict_at(d, p, acc, last),
    decreases d.len() - p, 1int,
{
    if d[p] != 101 {
        let (k, q) = parse_value_at(d, p)->Ok_0;
        let kb = k->Bytes_0;
        let (v, r) = parse_value_at(d, q)->Ok_0;
        law_dict_progress(d, r, acc.insert(kb, v), Some(kb));
        law_parse_progress(d, q);
        lemma_parse_local(d, d2, p, n);
        lemma_parse_local(d, d2, q, n);
        lemma_dict_local(d, d2, r, acc.insert(kb, v), Some(kb), n);
    }
}

/// `decode_partial` reads the bytes of one value and nothing after them:
/// those bytes alone decode to the value, and any bytes put after them give
/// the same answer.
pub proof fn law_decode_partial_prefix(d: Seq<u8>, rest: Seq<u8>)
    requires
        parse_value_at(d, 0) is Ok,
    ensures
        ({
            let (v, n) = parse_value_at(d, 0)->Ok_0;
            &&& 0 < n <= d.len()
            &&& spec_decode(d.take(n)) == Ok::<ValueModel, DecodeError>(v)
            &&& parse_value_at(d.take(n) + rest, 0) == parse_value_at(d, 0)
        }),
{
    law_parse_progress(d, 0);
    let n = parse_value_at(d, 0)->Ok_0.1;
    lemma_parse_local(d, d.take(n), 0, n);
    lemma_parse_local(d, d.take(n) + rest, 0, n);
}

proof fn lemma_find_byte_bounds(d: Seq<u8>, from: int, b: u8)
    requires
        0 <= from <= d.len(),
    ensures
        from <= find_byte(d, from, b) <= d.len(),
    decreases d.len() - from,
{
    if from < d.len() && d[from] != b {
        lemma_find_byte_bounds(d, from + 1, b);
    }
}

} // verus!

use rusty_torrent::bencode::decoder::{decode, decode_partial, value_span, DecodeError};
use rusty_torrent::bencode::{Dictionary, Value};

#[test]
fn test_decode_integer() {
    assert_eq!(decode(b"i42e").unwrap(), Value::Integer(42));
    assert_eq!(decode(b"i-7e").unwrap(), Value::Integer(-7));
    assert_eq!(decode(b"i0e").unwrap(), Value::Integer(0));
}

#[test]
fn test_decode_bytes() {
    assert_eq!(decode(b"4:spam").unwrap(), Value::Bytes(b"spam".to_vec()));
    assert_eq!(decode(b"0:").unwrap(), Value::Bytes(vec![]));
}

#[test]
fn test_decode_list() {
    let val = decode(b"l4:spam4:eggse").unwrap();
    assert_eq!(
        val,
        Value::List(vec![
            Value::Bytes(b"spam".to_vec()),
            Value::Bytes(b"eggs".to_vec()),
        ])
    );
}

#[test]
fn test_decode_dict() {
    let val = decode(b"d3:cow3:moo4:spam4:eggse").unwrap();
    let dict = val.as_dict().unwrap();
    assert_eq!(dict.get(&b"cow"[..]).unwrap(), &Value::Bytes(b"moo".to_vec()));
    assert_eq!(dict.get(&b"spam"[..]).unwrap(), &Value::Bytes(b"eggs".to_vec()));
}

#[test]
fn test_decode_nested() {
    let val = decode(b"d4:listli1ei2ei3ee5:valuei42ee").unwrap();
    let list = val.get_str("list").unwrap().as_list().unwrap();
    assert_eq!(list.len(), 3);
    assert_eq!(val.get_str("value").unwrap().as_integer().unwrap(), 42);
}

#[test]
fn test_decode_error_trailing() {
    assert!(decode(b"i42eXXX").is_err());
}

#[test]
fn test_decode_error_eof() {
    assert!(decode(b"i42").is_err());
}

#[test]
fn decode_error_positions() {
    assert_eq!(decode(b"i42").unwrap_err(), DecodeError::UnexpectedEof(3));
    assert_eq!(decode(b"i42eXXX").unwrap_err(), DecodeError::TrailingData(4));
    assert_eq!(decode(b"i4x2e").unwrap_err(), DecodeError::InvalidInteger(1));
    assert_eq!(decode(b"ie").unwrap_err(), DecodeError::InvalidInteger(1));
    assert_eq!(decode(b"i-e").unwrap_err(), DecodeError::InvalidInteger(1));
    assert_eq!(decode(b"x").unwrap_err(), DecodeError::UnexpectedByte(b'x', 0));
    assert_eq!(decode(b"").unwrap_err(), DecodeError::UnexpectedEof(0));
    assert_eq!(decode(b"5:abc").unwrap_err(), DecodeError::UnexpectedEof(2));
    assert_eq!(decode(b"3abc").unwrap_err(), DecodeError::InvalidStringLength(0));
    assert_eq!(decode(b"di1e1:ae").unwrap_err(), DecodeError::InvalidDictKey(1));
    assert_eq!(decode(b"l1:a").unwrap_err(), DecodeError::UnexpectedEof(4));
    assert_eq!(
        decode(b"99999999999999999999999:a").unwrap_err(),
        DecodeError::InvalidStringLength(0)
    );
}

#[test]
fn decode_integer_grammar() {
    assert_eq!(decode(b"i+5e").unwrap(), Value::Integer(5));
    assert_eq!(decode(b"i007e").unwrap(), Value::Integer(7));
    assert_eq!(decode(b"i-0e").unwrap(), Value::Integer(0));
    assert_eq!(
        decode(b"i-9223372036854775808e").unwrap(),
        Value::Integer(i64::MIN)
    );
    assert_eq!(
        decode(b"i9223372036854775807e").unwrap(),
        Value::Integer(i64::MAX)
    );
    assert_eq!(
        decode(b"i9223372036854775808e").unwrap_err(),
        DecodeError::InvalidInteger(1)
    );
}

#[test]
fn decode_partial_reports_length() {
    let (v, n) = decode_partial(b"i42eXXX").unwrap();
    assert_eq!(v, Value::Integer(42));
    assert_eq!(n, 4);
    let (v, n) = decode_partial(b"d1:ai1ee rest").unwrap();
    assert_eq!(n, 8);
    assert_eq!(v.get_str("a").unwrap().as_integer(), Some(1));
}

#[test]
fn dictionary_keys_must_increase() {
    assert_eq!(decode(b"d1:bi1e1:ai2ee"), Err(DecodeError::InvalidDictKey(7)));
    assert_eq!(decode(b"d1:ai1e1:ai2ee"), Err(DecodeError::InvalidDictKey(7)));
    let val = decode(b"d1:ai2e2:aai3e1:bi1ee").unwrap();
    let dict = val.as_dict().unwrap();
    assert_eq!(dict.len(), 3);
    let keys: Vec<Vec<u8>> = dict.entries().iter().map(|(k, _)| k.clone()).collect();
    assert_eq!(keys, vec![b"a".to_vec(), b"aa".to_vec(), b"b".to_vec()]);
}

#[test]
fn dictionary_insert_and_get() {
    let mut d = Dictionary::new();
    d.insert(b"zeta".to_vec(), Value::Integer(1));
    d.insert(b"alpha".to_vec(), Value::Integer(2));
    d.insert(b"al".to_vec(), Value::Integer(3));
    d.insert(b"zeta".to_vec(), Value::Integer(4));
    assert_eq!(d.len(), 3);
    assert_eq!(d.get(b"zeta"), Some(&Value::Integer(4)));
    assert_eq!(d.get(b"missing"), None);
    let keys: Vec<Vec<u8>> = d.entries().iter().map(|(k, _)| k.clone()).collect();
    assert_eq!(keys, vec![b"al".to_vec(), b"alpha".to_vec(), b"zeta".to_vec()]);
}

#[test]
fn value_accessors() {
    let v = decode(b"5:hello").unwrap();
    assert_eq!(v.as_str(), Some("hello"));
    assert_eq!(v.as_bytes(), Some(&b"hello"[..]));
    assert_eq!(v.as_integer(), None);
    assert!(v.as_list().is_none());
    assert!(v.as_dict().is_none());
    assert!(v.get(b"x").is_none());
    let bad = Value::Bytes(vec![0xff, 0xfe]);
    assert_eq!(bad.as_str(), None);
}

#[test]
fn value_display_text() {
    let v = decode(b"d4:listli1ei-2ee4:name3:foo3:rawl2:\xff\xfeee").unwrap();
    assert_eq!(
        v.to_display_string(),
        "{\"list\": [1, -2], \"name\": \"foo\", \"raw\": [<2 bytes>]}"
    );
    assert_eq!(Value::Integer(i64::MIN).to_display_string(), "-9223372036854775808");
}

#[test]
fn decode_partial_reads_only_its_value() {
    let data = b"d1:ali1ei2ee1:b3:xyzeTAIL";
    let (v, n) = decode_partial(data).unwrap();
    assert_eq!(n, 21);
    assert_eq!(decode(&data[..n]).unwrap(), v);
    let mut other = data[..n].to_vec();
    other.extend_from_slice(b"i9e");
    let (w, m) = decode_partial(&other).unwrap();
    assert_eq!((w, m), (v, n));
}

#[test]
fn value_span_finds_top_level_key() {
    let data = b"d1:a8:x4:infod4:infod1:xi1eee";
    assert_eq!(value_span(data, b"info"), Ok(Some((20, 28))));
    assert_eq!(&data[20..28], b"d1:xi1ee");
    assert_eq!(value_span(data, b"zz"), Ok(None));
    assert_eq!(value_span(b"i1e", b"info"), Ok(None));
    assert_eq!(value_span(b"d1:bi1e1:ai2ee", b"info"), Err(DecodeError::InvalidDictKey(7)));
}

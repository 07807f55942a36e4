use rusty_torrent::peer::bitfield::Bitfield;
use rusty_torrent::peer::client::{bitfield_step, BitfieldStep, PeerState};
use rusty_torrent::peer::handshake::{
    build_handshake, check_info_hash, check_protocol_length, parse_handshake_rest,
    HandshakeError,
};
use rusty_torrent::peer::message::{Message, MessageError, MessageId};

#[test]
fn test_new_bitfield() {
    let bf = Bitfield::new(16);
    assert_eq!(bf.as_bytes().len(), 2);
    assert!(!bf.has_piece(0));
    assert!(!bf.has_piece(15));
}

#[test]
fn test_set_and_has() {
    let mut bf = Bitfield::new(24);
    bf.set_piece(0);
    bf.set_piece(7);
    bf.set_piece(15);
    bf.set_piece(23);

    assert!(bf.has_piece(0));
    assert!(bf.has_piece(7));
    assert!(bf.has_piece(15));
    assert!(bf.has_piece(23));
    assert!(!bf.has_piece(1));
    assert!(!bf.has_piece(8));
}

#[test]
fn test_clear() {
    let mut bf = Bitfield::new(8);
    bf.set_piece(3);
    assert!(bf.has_piece(3));
    bf.clear_piece(3);
    assert!(!bf.has_piece(3));
}

#[test]
fn test_count() {
    let mut bf = Bitfield::new(16);
    bf.set_piece(0);
    bf.set_piece(5);
    bf.set_piece(10);
    assert_eq!(bf.count(), 3);
}

#[test]
fn test_out_of_bounds() {
    let mut bf = Bitfield::new(8);
    bf.set_piece(100); // should not panic
    assert!(!bf.has_piece(100));
}

#[test]
fn test_from_bytes() {
    let data = vec![0b10110000, 0b00000001];
    let bf = Bitfield::from_bytes(data, 16);
    assert!(bf.has_piece(0)); // bit 7 of byte 0
    assert!(!bf.has_piece(1)); // bit 6 of byte 0
    assert!(bf.has_piece(2)); // bit 5 of byte 0
    assert!(bf.has_piece(3)); // bit 4 of byte 0
    assert!(bf.has_piece(15)); // bit 0 of byte 1
}

#[test]
fn bitfield_bytes_and_short_data() {
    let mut bf = Bitfield::new(9);
    assert_eq!(bf.as_bytes(), &[0, 0]);
    bf.set_piece(8);
    assert_eq!(bf.as_bytes(), &[0, 0b1000_0000]);
    // A bitfield shorter than its piece count has nothing past its bytes.
    let mut short = Bitfield::from_bytes(vec![0xff], 16);
    assert!(short.has_piece(7));
    assert!(!short.has_piece(8));
    short.set_piece(12);
    assert!(!short.has_piece(12));
    // Bits past the piece count are not counted.
    let full = Bitfield::from_bytes(vec![0xff, 0xff], 10);
    assert_eq!(full.count(), 10);
    assert!(!full.has_piece(10));
}

#[test]
fn test_serialize_choke() {
    let msg = Message::new(MessageId::Choke);
    let data = msg.serialize();
    assert_eq!(data, vec![0, 0, 0, 1, 0]); // length=1, id=0
}

#[test]
fn test_serialize_have() {
    let msg = Message::have(42);
    let data = msg.serialize();
    // length=5 (1 id + 4 payload), id=4, index=42
    assert_eq!(data, vec![0, 0, 0, 5, 4, 0, 0, 0, 42]);
}

#[test]
fn test_serialize_request() {
    let msg = Message::request(1, 0, 16384);
    let data = msg.serialize();
    assert_eq!(data.len(), 4 + 1 + 12); // 4 length + 1 id + 12 payload
    assert_eq!(data[4], 6); // Request ID
}

#[test]
fn test_parse_have() {
    let msg = Message::have(99);
    assert_eq!(msg.parse_have().unwrap(), 99);
}

#[test]
fn test_parse_piece() {
    let mut payload = Vec::new();
    payload.extend_from_slice(&5u32.to_be_bytes()); // index
    payload.extend_from_slice(&0u32.to_be_bytes()); // begin offset
    payload.extend_from_slice(&[1, 2, 3, 4, 5]); // block data

    let msg = Message::with_payload(MessageId::Piece, payload);

    let mut buf = vec![0u8; 10];
    let n = msg.parse_piece(5, &mut buf).unwrap();
    assert_eq!(n, 5);
    assert_eq!(&buf[..5], &[1, 2, 3, 4, 5]);
}

#[test]
fn test_parse_piece_wrong_index() {
    let mut payload = Vec::new();
    payload.extend_from_slice(&5u32.to_be_bytes());
    payload.extend_from_slice(&0u32.to_be_bytes());
    payload.extend_from_slice(&[1, 2, 3]);

    let msg = Message::with_payload(MessageId::Piece, payload);
    assert!(msg.parse_piece(3, &mut [0u8; 10]).is_err());
}

#[test]
fn test_message_id_roundtrip() {
    for id in 0..=8u8 {
        let msg_id = MessageId::from_byte(id).unwrap();
        assert_eq!(msg_id as u8, id);
    }
    assert!(MessageId::from_byte(9).is_err());
}

#[test]
fn message_errors() {
    let msg = Message::new(MessageId::Choke);
    assert!(matches!(
        msg.parse_have(),
        Err(MessageError::UnexpectedType { expected: "have", got: 0 })
    ));
    let msg = Message::with_payload(MessageId::Have, vec![1, 2]);
    assert!(matches!(
        msg.parse_have(),
        Err(MessageError::PayloadTooShort { msg_type: "have", need: 4, got: 2 })
    ));
    let msg = Message::with_payload(MessageId::Piece, vec![0, 0, 0, 1, 0]);
    assert!(matches!(
        msg.parse_piece(1, &mut [0u8; 4]),
        Err(MessageError::PayloadTooShort { msg_type: "piece", need: 8, got: 5 })
    ));
    let msg = Message::with_payload(MessageId::Piece, vec![0, 0, 0, 1, 0, 0, 0, 3, 9, 9]);
    let mut buf = [7u8; 4];
    assert!(matches!(
        msg.parse_piece(1, &mut buf),
        Err(MessageError::PayloadTooShort { msg_type: "piece data", need: 5, got: 4 })
    ));
    assert_eq!(buf, [7u8; 4]);
    let mut buf = [7u8; 6];
    assert_eq!(msg.parse_piece(1, &mut buf).unwrap(), 2);
    assert_eq!(buf, [7, 7, 7, 9, 9, 7]);
    assert!(matches!(MessageId::from_byte(200), Err(MessageError::InvalidId(200))));
}

#[test]
fn message_framing_roundtrip() {
    let msg = Message::request(3, 16384, 16384);
    let bytes = msg.serialize();
    let len = Message::frame_length([bytes[0], bytes[1], bytes[2], bytes[3]])
        .unwrap()
        .unwrap();
    assert_eq!(len as usize, bytes.len() - 4);
    let back = Message::from_body(&bytes[4..]).unwrap();
    assert_eq!(back.id, MessageId::Request);
    assert_eq!(back.payload, msg.payload);
    assert!(matches!(Message::frame_length([0, 0, 0, 0]), Ok(None)));
    assert!(matches!(
        Message::frame_length([1, 0, 0, 1]),
        Err(MessageError::TooLarge(16777217))
    ));
    assert!(matches!(Message::from_body(&[9, 1]), Err(MessageError::InvalidId(9))));
}

#[test]
fn handshake_layout_and_parse() {
    let info_hash = [7u8; 20];
    let peer_id = *b"-RT0001-abcdefghijkl";
    let hs = build_handshake(&info_hash, &peer_id);
    assert_eq!(hs.len(), 68);
    assert_eq!(hs[0], 19);
    assert_eq!(&hs[1..20], b"BitTorrent protocol");
    assert_eq!(&hs[20..28], &[0u8; 8]);
    assert_eq!(&hs[28..48], &info_hash);
    assert_eq!(&hs[48..68], &peer_id);
    assert!(check_protocol_length(hs[0]).is_ok());
    let mut rest = [0u8; 67];
    rest.copy_from_slice(&hs[1..]);
    let res = parse_handshake_rest(&rest).unwrap();
    assert_eq!(res.info_hash, info_hash);
    assert_eq!(res.peer_id, peer_id);
    let res = check_info_hash(res, &info_hash).unwrap();
    assert_eq!(res.peer_id, peer_id);
}

#[test]
fn handshake_errors() {
    assert!(matches!(
        check_protocol_length(18),
        Err(HandshakeError::InvalidProtocolLength(18))
    ));
    let mut rest = [0u8; 67];
    rest[..19].copy_from_slice(b"BitTorrent protocoL");
    assert!(matches!(
        parse_handshake_rest(&rest),
        Err(HandshakeError::UnknownProtocol)
    ));
    rest[..19].copy_from_slice(b"BitTorrent protocol");
    let res = parse_handshake_rest(&rest).unwrap();
    assert!(matches!(
        check_info_hash(res, &[1u8; 20]),
        Err(HandshakeError::InfoHashMismatch)
    ));
}

#[test]
fn peer_state_follows_messages() {
    let mut st = PeerState::new(Bitfield::new(16));
    assert!(st.choked);
    st.handle_message(&Message::new(MessageId::Unchoke));
    assert!(!st.choked);
    st.handle_message(&Message::have(9));
    assert!(st.bitfield.has_piece(9));
    st.handle_message(&Message::with_payload(MessageId::Have, vec![0, 0]));
    assert_eq!(st.bitfield.count(), 1);
    st.handle_message(&Message::new(MessageId::Choke));
    assert!(st.choked);
    st.record_download(100);
    st.record_download(20);
    st.record_piece_complete();
    st.record_failure();
    assert_eq!(st.stats.bytes_downloaded, 120);
    assert_eq!(st.stats.pieces_completed, 1);
    assert_eq!(st.stats.failed_attempts, 1);
}

#[test]
fn waiting_for_the_bitfield() {
    assert!(matches!(bitfield_step(None, 8), BitfieldStep::KeepReading));
    assert!(matches!(
        bitfield_step(Some(Message::new(MessageId::Unchoke)), 8),
        BitfieldStep::KeepReading
    ));
    match bitfield_step(Some(Message::with_payload(MessageId::Bitfield, vec![0x80])), 8) {
        BitfieldStep::Done(b) => assert!(b.has_piece(0)),
        BitfieldStep::KeepReading => panic!("expected a bitfield"),
    }
    match bitfield_step(Some(Message::request(0, 0, 1)), 8) {
        BitfieldStep::Done(b) => assert_eq!(b.count(), 0),
        BitfieldStep::KeepReading => panic!("expected an empty bitfield"),
    }
}

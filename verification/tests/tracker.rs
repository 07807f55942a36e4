use rusty_torrent::peer::PeerAddr;
use rusty_torrent::session::{
    announce_urls, check_peers_found, merge_announce, tracker_kind, TrackerKind,
};
use rusty_torrent::tracker::http::{
    announce_query, build_announce_url, generate_peer_id, parse_announce_response, peer_id_with,
    unmarshal_peers, TrackerError,
};
use rusty_torrent::tracker::udp::{
    build_announce_request, build_connect_request, parse_announce_response as parse_udp_answer,
    parse_connect_response, parse_udp_url, UdpTrackerError,
};
use rusty_torrent::tracker::AnnounceResponse;

#[test]
fn test_parse_udp_url() {
    let (host, port) = parse_udp_url("udp://tracker.example.com:6969").unwrap();
    assert_eq!(host, "tracker.example.com");
    assert_eq!(port, 6969);
}

#[test]
fn test_parse_udp_url_with_path() {
    let (host, port) = parse_udp_url("udp://tracker.opentrackr.org:1337/announce").unwrap();
    assert_eq!(host, "tracker.opentrackr.org");
    assert_eq!(port, 1337);
}

#[test]
fn test_parse_udp_url_invalid() {
    assert!(parse_udp_url("http://tracker.example.com:6969").is_err());
    assert!(parse_udp_url("udp://invalid").is_err());
}

#[test]
fn udp_url_messages() {
    match parse_udp_url("udp://host:70000") {
        Err(UdpTrackerError::InvalidUrl(m)) => assert_eq!(m, "Invalid port"),
        _ => panic!(),
    }
    match parse_udp_url("udp://host/a:1") {
        Err(UdpTrackerError::InvalidUrl(m)) => assert_eq!(m, "Missing port number"),
        _ => panic!(),
    }
    match parse_udp_url("tcp://host:1") {
        Err(UdpTrackerError::InvalidUrl(m)) => assert_eq!(m, "URL must start with udp://"),
        _ => panic!(),
    }
    let (host, port) = parse_udp_url("udp://[::1]:+80/x").unwrap();
    assert_eq!(host, "[::1]");
    assert_eq!(port, 80);
}

#[test]
fn compact_peers() {
    let data = [10, 0, 0, 1, 0x1a, 0xe1, 192, 168, 1, 2, 0, 80];
    let peers = unmarshal_peers(&data).unwrap();
    assert_eq!(
        peers,
        vec![
            PeerAddr { ip: [10, 0, 0, 1], port: 6881 },
            PeerAddr { ip: [192, 168, 1, 2], port: 80 }
        ]
    );
    assert!(matches!(unmarshal_peers(&data[..7]), Err(TrackerError::MalformedPeers(7))));
    assert!(unmarshal_peers(&[]).unwrap().is_empty());
}

#[test]
fn http_answer() {
    let mut body = b"d8:intervali1800e5:peers6:".to_vec();
    body.extend_from_slice(&[1, 2, 3, 4, 0, 5]);
    body.push(b'e');
    let a = parse_announce_response(&body).unwrap();
    assert_eq!(a.interval, 1800);
    assert_eq!(a.peers, vec![PeerAddr { ip: [1, 2, 3, 4], port: 5 }]);
    let a = parse_announce_response(b"d5:peers0:e").unwrap();
    assert_eq!(a.interval, 900);
    match parse_announce_response(b"d14:failure reason4:nopee") {
        Err(TrackerError::TrackerFailure(m)) => assert_eq!(m, "nope"),
        _ => panic!(),
    }
    match parse_announce_response(b"d14:failure reasoni1ee") {
        Err(TrackerError::TrackerFailure(m)) => assert_eq!(m, "unknown error"),
        _ => panic!(),
    }
    assert!(matches!(parse_announce_response(b"de"), Err(TrackerError::MissingField("peers"))));
    assert!(matches!(parse_announce_response(b"d"), Err(TrackerError::Decode(_))));
}

#[test]
fn announce_query_and_url() {
    let ih = [0xab; 20];
    let pid = *b"-RT0001-000000000000";
    let q = announce_query(&ih, &pid, 6881, 0, 1, 2);
    let mut expected = String::from("info_hash=");
    for _ in 0..20 {
        expected.push_str("%AB");
    }
    expected.push_str("&peer_id=");
    for b in pid.iter() {
        expected.push_str(&format!("%{b:02X}"));
    }
    expected.push_str("&port=6881&uploaded=0&downloaded=1&compact=1&left=2");
    assert_eq!(q, expected);
    let url = build_announce_url("http://t.example/announce?x=1", &ih, &pid, 6881, 0, 1, 2).unwrap();
    assert_eq!(url, format!("http://t.example/announce?{expected}"));
    assert!(matches!(
        build_announce_url("not a url", &ih, &pid, 1, 0, 0, 0),
        Err(TrackerError::UrlBuild(_))
    ));
}

#[test]
fn peer_id_prefix() {
    let a = generate_peer_id();
    assert_eq!(&a[..8], b"-RT0001-");
    let b = peer_id_with(&[1, 2, 3, 4, 5, 6, 7, 8, 9, 10, 11, 12]);
    assert_eq!(&b, b"-RT0001-\x01\x02\x03\x04\x05\x06\x07\x08\x09\x0a\x0b\x0c");
}

#[test]
fn udp_packets() {
    let req = build_connect_request(0x01020304);
    assert_eq!(
        req,
        vec![0, 0, 0x04, 0x17, 0x27, 0x10, 0x19, 0x80, 0, 0, 0, 0, 1, 2, 3, 4]
    );
    let mut resp = [0u8; 16];
    resp[4..8].copy_from_slice(&[1, 2, 3, 4]);
    resp[8..16].copy_from_slice(&77u64.to_be_bytes());
    assert_eq!(parse_connect_response(&resp, 0x01020304).unwrap(), 77);
    assert!(matches!(
        parse_connect_response(&resp, 5),
        Err(UdpTrackerError::InvalidResponse(_))
    ));
    resp[3] = 1;
    assert!(matches!(
        parse_connect_response(&resp, 0x01020304),
        Err(UdpTrackerError::ConnectionFailed)
    ));
    let ann = build_announce_request(77, 9, &[1; 20], &[2; 20], 3, 4, 5, 6, 6881);
    assert_eq!(ann.len(), 98);
    assert_eq!(&ann[0..8], &77u64.to_be_bytes());
    assert_eq!(&ann[8..12], &1u32.to_be_bytes());
    assert_eq!(&ann[12..16], &9u32.to_be_bytes());
    assert_eq!(&ann[16..36], &[1u8; 20]);
    assert_eq!(&ann[36..56], &[2u8; 20]);
    assert_eq!(&ann[56..64], &3u64.to_be_bytes());
    assert_eq!(&ann[64..72], &4u64.to_be_bytes());
    assert_eq!(&ann[72..80], &5u64.to_be_bytes());
    assert_eq!(&ann[80..88], &[0u8; 8]);
    assert_eq!(&ann[88..92], &6u32.to_be_bytes());
    assert_eq!(&ann[92..96], &(-1i32).to_be_bytes());
    assert_eq!(&ann[96..98], &6881u16.to_be_bytes());
}

#[test]
fn udp_answer() {
    let mut a = Vec::new();
    a.extend_from_slice(&1u32.to_be_bytes());
    a.extend_from_slice(&9u32.to_be_bytes());
    a.extend_from_slice(&600u32.to_be_bytes());
    a.extend_from_slice(&[0u8; 8]);
    a.extend_from_slice(&[1, 2, 3, 4, 0, 9]);
    a.extend_from_slice(&[5, 6, 7, 8, 0, 0]);
    a.extend_from_slice(&[9, 9, 9]);
    let r = parse_udp_answer(&a, 9).unwrap();
    assert_eq!(r.interval, 600);
    assert_eq!(r.peers, vec![PeerAddr { ip: [1, 2, 3, 4], port: 9 }]);
    assert!(matches!(parse_udp_answer(&a, 8), Err(UdpTrackerError::InvalidResponse(_))));
    assert!(matches!(parse_udp_answer(&a[..19], 9), Err(UdpTrackerError::InvalidResponse(_))));
    let mut e = 3u32.to_be_bytes().to_vec();
    e.extend_from_slice(&9u32.to_be_bytes());
    e.extend_from_slice(b"tracker says no!");
    match parse_udp_answer(&e, 9) {
        Err(UdpTrackerError::TrackerError(m)) => assert_eq!(m, "tracker says no!"),
        _ => panic!(),
    }
    let mut bad = 3u32.to_be_bytes().to_vec();
    bad.extend_from_slice(&9u32.to_be_bytes());
    bad.extend_from_slice(b"bad \xff byte!!!");
    match parse_udp_answer(&bad, 9) {
        Err(UdpTrackerError::TrackerError(m)) => assert_eq!(m, "bad \u{FFFD} byte!!!"),
        _ => panic!(),
    }
    let mut b = 2u32.to_be_bytes().to_vec();
    b.extend_from_slice(&[0u8; 16]);
    match parse_udp_answer(&b, 0) {
        Err(UdpTrackerError::InvalidResponse(m)) => {
            assert_eq!(m, "Unexpected action in announce response")
        }
        _ => panic!(),
    }
}

#[test]
fn session_planning() {
    let urls = announce_urls(
        &"http://a".to_string(),
        &vec![
            vec!["udp://b:1".to_string(), "http://a".to_string()],
            vec!["udp://b:1".to_string(), "https://c".to_string()],
        ],
    );
    assert_eq!(urls, vec!["udp://b:1", "http://a", "https://c"]);
    let urls = announce_urls(&"http://z".to_string(), &vec![]);
    assert_eq!(urls, vec!["http://z"]);
    assert_eq!(tracker_kind("udp://b:1"), Some(TrackerKind::Udp));
    assert_eq!(tracker_kind("https://c"), Some(TrackerKind::Http));
    assert_eq!(tracker_kind("http://c"), Some(TrackerKind::Http));
    assert_eq!(tracker_kind("wss://c"), None);
    let mut peers = vec![PeerAddr { ip: [1, 1, 1, 1], port: 1 }];
    let mut interval = 1800;
    merge_announce(
        &mut peers,
        &mut interval,
        &AnnounceResponse {
            interval: 900,
            peers: vec![
                PeerAddr { ip: [1, 1, 1, 1], port: 1 },
                PeerAddr { ip: [2, 2, 2, 2], port: 2 },
                PeerAddr { ip: [2, 2, 2, 2], port: 2 },
            ],
        },
    );
    assert_eq!(interval, 900);
    assert_eq!(peers.len(), 2);
    merge_announce(&mut peers, &mut interval, &AnnounceResponse { interval: 3000, peers: vec![] });
    assert_eq!(interval, 900);
}

#[test]
fn peers_found_or_not() {
    assert_eq!(check_peers_found(&vec![]), Err("No peers found from any tracker".to_string()));
    assert_eq!(check_peers_found(&vec![PeerAddr { ip: [1, 2, 3, 4], port: 5 }]), Ok(()));
}

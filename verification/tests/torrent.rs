use rusty_torrent::torrent::magnet::{url_decode, MagnetError, MagnetLink};
use rusty_torrent::torrent::metainfo::{Metainfo, MetainfoError};

#[test]
fn test_parse_magnet() {
    let uri = "magnet:?xt=urn:btih:da39a3ee5e6b4b0d3255bfef95601890afd80709&dn=test+file&tr=http%3A%2F%2Ftracker.example.com%3A6969%2Fannounce";
    let magnet = MagnetLink::parse(uri).unwrap();

    assert_eq!(magnet.display_name.as_deref(), Some("test file"));
    assert_eq!(magnet.trackers.len(), 1);
    assert_eq!(magnet.trackers[0], "http://tracker.example.com:6969/announce");
    assert_eq!(magnet.info_hash_hex(), "da39a3ee5e6b4b0d3255bfef95601890afd80709");
}

#[test]
fn test_invalid_magnet() {
    assert!(MagnetLink::parse("http://example.com").is_err());
    assert!(MagnetLink::parse("magnet:?dn=test").is_err());
}

#[test]
fn test_url_decode() {
    assert_eq!(url_decode("hello%20world"), "hello world");
    assert_eq!(url_decode("hello+world"), "hello world");
    assert_eq!(url_decode("http%3A%2F%2Fexample.com"), "http://example.com");
}

#[test]
fn url_decode_edge_cases() {
    assert_eq!(url_decode("100%"), "100%");
    assert_eq!(url_decode("%zz!"), "%zz!");
    assert_eq!(url_decode("%4"), "\u{4}");
    assert_eq!(url_decode("%+a"), "\n");
    assert_eq!(url_decode("%e9"), "\u{e9}");
    assert_eq!(url_decode("plain-text"), "plain-text");
}

#[test]
fn magnet_errors() {
    assert!(matches!(MagnetLink::parse("http://example.com"), Err(MagnetError::InvalidScheme)));
    assert!(matches!(MagnetLink::parse("magnet:?dn=test"), Err(MagnetError::MissingInfoHash)));
    assert!(matches!(MagnetLink::parse("magnet:?xt=urn:sha1:abc"), Err(MagnetError::InvalidUrn)));
    assert!(matches!(
        MagnetLink::parse("magnet:?xt=urn:btih:abc"),
        Err(MagnetError::InvalidInfoHash(3))
    ));
    match MagnetLink::parse("magnet:?xt=urn:btih:zz39a3ee5e6b4b0d3255bfef95601890afd80709") {
        Err(MagnetError::HexDecode(msg)) => {
            let expected = u8::from_str_radix("zz", 16).unwrap_err().to_string();
            assert_eq!(msg, expected);
        }
        _ => panic!("expected a hex error"),
    }
    // Only hexadecimal digits make up an info hash: no sign, no other text.
    assert!(matches!(
        MagnetLink::parse("magnet:?xt=urn:btih:+a39a3ee5e6b4b0d3255bfef95601890afd80709"),
        Err(MagnetError::HexDecode(_))
    ));
    assert!(matches!(
        MagnetLink::parse("magnet:?xt=urn:btih:a\u{e9}39a3ee5e6b4b0d3255bfef95601890afd8070"),
        Err(MagnetError::HexDecode(_))
    ));
    assert!(MagnetLink::parse("magnet:?xt=urn:btih:DA39A3EE5E6B4B0D3255BFEF95601890AFD80709").is_ok());
}

#[test]
fn magnet_without_name_and_many_trackers() {
    let uri = "magnet:?tr=udp%3A%2F%2Fa%3A1&xt=urn:btih:0000000000000000000000000000000000000001&tr=b&dn";
    let m = MagnetLink::parse(uri).unwrap();
    assert_eq!(m.display_name.as_deref(), Some(""));
    assert_eq!(m.trackers, vec!["udp://a:1".to_string(), "b".to_string()]);
    assert_eq!(m.info_hash[19], 1);
    let m = MagnetLink::parse("magnet:?xt=urn:btih:FFFFFFFFFFFFFFFFFFFFFFFFFFFFFFFFFFFFFFFF").unwrap();
    assert_eq!(m.display_name, None);
    assert_eq!(m.info_hash, [0xff; 20]);
    assert_eq!(m.info_hash_hex(), "ffffffffffffffffffffffffffffffffffffffff");
}

#[test]
fn test_split_piece_hashes() {
    let raw = vec![0u8; 60]; // 3 hashes
    let hashes = Metainfo::split_piece_hashes(&raw).unwrap();
    assert_eq!(hashes.len(), 3);
}

#[test]
fn test_split_piece_hashes_invalid() {
    let raw = vec![0u8; 25]; // Not a multiple of 20
    assert!(Metainfo::split_piece_hashes(&raw).is_err());
}

fn single_file_torrent() -> Vec<u8> {
    let mut t = Vec::new();
    t.extend_from_slice(b"d8:announce23:http://tracker/announce13:announce-listll3:abc3:defei7el3:ghiee4:infod");
    t.extend_from_slice(b"6:lengthi100e4:name8:file.txt12:piece lengthi64e6:pieces40:");
    t.extend_from_slice(&[1u8; 20]);
    t.extend_from_slice(&[2u8; 20]);
    t.extend_from_slice(b"ee");
    t
}

#[test]
fn info_hash_is_sha1_of_info_dictionary() {
    let expected: [u8; 20] = [
        240, 123, 73, 216, 3, 83, 216, 188, 131, 156, 177, 178, 120, 47, 46, 184, 252, 28, 205, 210,
    ];
    assert_eq!(Metainfo::compute_info_hash(b"d4:infod1:ai1eee").unwrap(), expected);
}

#[test]
fn pieces_cover_total() {
    let data = single_file_torrent();
    let m = Metainfo::from_bytes(&data).unwrap();
    let covered: u64 = (0..m.piece_hashes.len()).map(|i| m.piece_size(i)).sum();
    assert_eq!(covered, m.total_length);
    let first_one: u64 = (0..1).map(|i| m.piece_size(i)).sum();
    assert_eq!(first_one, m.piece_length);
}

#[test]
fn metainfo_single_file() {
    let data = single_file_torrent();
    let m = Metainfo::from_bytes(&data).unwrap();
    assert_eq!(m.announce, "http://tracker/announce");
    assert_eq!(
        m.announce_list,
        vec![vec!["abc".to_string(), "def".to_string()], vec!["ghi".to_string()]]
    );
    assert_eq!(m.name, "file.txt");
    assert_eq!(m.piece_length, 64);
    assert_eq!(m.piece_hashes, vec![[1u8; 20], [2u8; 20]]);
    assert_eq!(m.total_length, 100);
    assert!(m.is_single_file);
    assert_eq!(m.files.len(), 1);
    assert_eq!(m.files[0].path, vec!["file.txt".to_string()]);
    assert_eq!(m.piece_size(0), 64);
    assert_eq!(m.piece_size(1), 36);
    assert_eq!(m.piece_size(2), 0);
    // The info hash is the digest of the raw info dictionary, wherever it is.
    let hash = Metainfo::compute_info_hash(&data).unwrap();
    assert_eq!(m.info_hash, hash);
    let start = data.windows(7).position(|w| w == b"4:infod").unwrap() + 6;
    let mut moved = b"d1:ai5e4:info".to_vec();
    moved.extend_from_slice(&data[start..]);
    assert_eq!(Metainfo::compute_info_hash(&moved).unwrap(), hash);
    // Bytes that look like the key inside an earlier string are not the key.
    let mut decoy = b"d1:a9:x4:infodx4:info".to_vec();
    decoy.extend_from_slice(&data[start..]);
    assert_eq!(Metainfo::compute_info_hash(&decoy).unwrap(), hash);
    let n = moved.len();
    moved[n - 3] ^= 1;
    assert_ne!(Metainfo::compute_info_hash(&moved).unwrap(), hash);
}

#[test]
fn metainfo_multi_file() {
    let mut t = Vec::new();
    t.extend_from_slice(b"d4:infod5:filesld6:lengthi3e4:pathl1:a1:beed6:lengthi4e4:pathl1:ci5eeee");
    t.extend_from_slice(b"4:name3:dir12:piece lengthi2e6:pieces0:ee");
    let m = Metainfo::from_bytes(&t).unwrap();
    assert_eq!(m.announce, "");
    assert!(m.announce_list.is_empty());
    assert!(!m.is_single_file);
    assert_eq!(m.total_length, 7);
    assert_eq!(m.files.len(), 2);
    assert_eq!(m.files[0].path, vec!["a".to_string(), "b".to_string()]);
    assert_eq!(m.files[1].path, vec!["c".to_string()]);
    assert!(m.piece_hashes.is_empty());
}

#[test]
fn metainfo_errors() {
    assert!(matches!(Metainfo::from_bytes(b"i1e"), Err(MetainfoError::InvalidField("root"))));
    assert!(matches!(Metainfo::from_bytes(b"de"), Err(MetainfoError::MissingField("info"))));
    assert!(matches!(
        Metainfo::from_bytes(b"d4:infoi1ee"),
        Err(MetainfoError::InvalidField("info"))
    ));
    assert!(matches!(Metainfo::from_bytes(b"d4:info"), Err(MetainfoError::Decode(_))));
    assert!(matches!(
        Metainfo::from_bytes(b"d4:infod4:name1:xee"),
        Err(MetainfoError::MissingField("info.piece length"))
    ));
    assert!(matches!(
        Metainfo::from_bytes(b"d4:infod4:name1:x12:piece lengthi1e6:pieces3:abcee"),
        Err(MetainfoError::MalformedPieces(3))
    ));
    assert!(matches!(
        Metainfo::from_bytes(b"d4:infod4:name1:x12:piece lengthi1e6:pieces0:ee"),
        Err(MetainfoError::MissingField("info.length or info.files"))
    ));
    assert!(matches!(
        Metainfo::compute_info_hash(b"d4:infoi1ee"),
        Err(MetainfoError::InfoDictNotFound)
    ));
    // Only the top-level key counts: a string holding `4:infod` is no info.
    assert!(matches!(
        Metainfo::from_bytes(b"d1:a9:x4:infodxe"),
        Err(MetainfoError::MissingField("info"))
    ));
    assert!(matches!(
        Metainfo::compute_info_hash(b"d1:a9:x4:infodxe"),
        Err(MetainfoError::InfoDictNotFound)
    ));
}

#[test]
fn magnet_hex_roundtrip() {
    let m = MagnetLink::parse("magnet:?xt=urn:btih:DA39A3EE5E6B4B0D3255BFEF95601890AFD80709&tr=x").unwrap();
    let again = MagnetLink::parse(&format!("magnet:?xt=urn:btih:{}", m.info_hash_hex())).unwrap();
    assert_eq!(again.info_hash, m.info_hash);
    assert_eq!(again.display_name, None);
    assert!(again.trackers.is_empty());
}

//! Metainfo model behaviour: pieces and peers codecs, torrent parsing,
//! and the info-hash against a reference digest.

use bittorrent::bencode::BencodeValue;
use sha1::Digest;
use bittorrent::info::{Info, MetainfoError, Peers, Pieces};
use bittorrent::torrent::Torrent;

#[test]
fn pieces_reject_length_not_multiple_of_twenty() {
    let blob = [0u8; 19];
    assert_eq!(
        Pieces::from_bytes(&blob).map(|p| p.0),
        Err(MetainfoError::PiecesLength)
    );
    let blob = [0u8; 21];
    assert_eq!(
        Pieces::from_bytes(&blob).map(|p| p.0),
        Err(MetainfoError::PiecesLength)
    );
}

#[test]
fn pieces_split_and_rejoin() {
    let mut blob = Vec::new();
    blob.extend_from_slice(&[1u8; 20]);
    blob.extend_from_slice(&[2u8; 20]);
    let pieces = Pieces::from_bytes(&blob).expect("multiple of 20");
    assert_eq!(pieces.0.len(), 2);
    assert_eq!(pieces.0[0], [1u8; 20]);
    assert_eq!(pieces.0[1], [2u8; 20]);
    assert_eq!(pieces.to_bytes(), blob);
}

#[test]
fn peers_reject_length_not_multiple_of_six() {
    let blob = [0u8; 5];
    assert_eq!(
        Peers::from_bytes(&blob).map(|p| p.0),
        Err(MetainfoError::PeersLength)
    );
}

#[test]
fn peers_decode_compact_entries() {
    let blob = [192u8, 168, 0, 1, 0x1A, 0xE1, 10, 0, 0, 7, 0, 80];
    let peers = Peers::from_bytes(&blob).expect("multiple of 6");
    assert_eq!(peers.0.len(), 2);
    assert_eq!(peers.0[0].ip, [192, 168, 0, 1]);
    assert_eq!(peers.0[0].port, 6881);
    assert_eq!(peers.0[1].ip, [10, 0, 0, 7]);
    assert_eq!(peers.0[1].port, 80);
    assert_eq!(peers.to_bytes(), blob.to_vec());
}

fn sample_info_dict() -> Vec<(Vec<u8>, BencodeValue)> {
    vec![
        (b"name".to_vec(), BencodeValue::ByteString(b"test".to_vec())),
        (b"piece length".to_vec(), BencodeValue::Integer(16384)),
        (
            b"pieces".to_vec(),
            BencodeValue::ByteString(vec![0u8; 20]),
        ),
        (b"length".to_vec(), BencodeValue::Integer(16384)),
    ]
}

#[test]
fn info_from_value_reads_all_fields() {
    let v = BencodeValue::Dictionary(sample_info_dict());
    let info = Info::from_value(&v).expect("well-formed info");
    assert_eq!(info.name, "test");
    assert_eq!(info.piece_length, 16384);
    assert_eq!(info.length, 16384);
    assert_eq!(info.pieces.0, vec![[0u8; 20]]);
    assert!(info.path.is_none());
}

#[test]
fn info_rejects_nineteen_byte_pieces() {
    let mut entries = sample_info_dict();
    entries[2].1 = BencodeValue::ByteString(vec![0u8; 19]);
    let v = BencodeValue::Dictionary(entries);
    assert!(matches!(
        Info::from_value(&v),
        Err(MetainfoError::PiecesLength)
    ));
}

#[test]
fn info_rejects_missing_and_mistyped_fields() {
    let mut entries = sample_info_dict();
    entries.remove(0);
    assert!(matches!(
        Info::from_value(&BencodeValue::Dictionary(entries)),
        Err(MetainfoError::Structure)
    ));
    let mut entries = sample_info_dict();
    entries[1].1 = BencodeValue::ByteString(b"16384".to_vec());
    assert!(matches!(
        Info::from_value(&BencodeValue::Dictionary(entries)),
        Err(MetainfoError::Structure)
    ));
    assert!(matches!(
        Info::from_value(&BencodeValue::Integer(3)),
        Err(MetainfoError::Structure)
    ));
}

#[test]
fn info_rejects_non_utf8_name() {
    let mut entries = sample_info_dict();
    entries[0].1 = BencodeValue::ByteString(vec![0xFF, 0xFE]);
    assert!(matches!(
        Info::from_value(&BencodeValue::Dictionary(entries)),
        Err(MetainfoError::Utf8)
    ));
}

#[test]
fn info_reads_path_lists() {
    let mut entries = sample_info_dict();
    entries.push((
        b"path".to_vec(),
        BencodeValue::List(vec![BencodeValue::List(vec![
            BencodeValue::ByteString(b"dir".to_vec()),
            BencodeValue::ByteString(b"file.txt".to_vec()),
        ])]),
    ));
    let info = Info::from_value(&BencodeValue::Dictionary(entries)).expect("path is well formed");
    let path = info.path.expect("path present");
    assert_eq!(path.len(), 1);
    assert_eq!(path[0], vec!["dir".to_string(), "file.txt".to_string()]);
}

#[test]
fn info_accepts_empty_path_list() {
    let mut entries = sample_info_dict();
    entries.push((b"path".to_vec(), BencodeValue::List(vec![])));
    let info = Info::from_value(&BencodeValue::Dictionary(entries)).expect("structurally valid");
    assert_eq!(info.path, Some(vec![]));
}

fn sample_torrent_bytes() -> Vec<u8> {
    let mut bytes = Vec::new();
    bytes.extend_from_slice(b"d8:announce31:http://tracker.example/announce4:infod");
    bytes.extend_from_slice(b"6:lengthi16384e4:name4:test12:piece lengthi16384e6:pieces20:");
    bytes.extend_from_slice(&[0u8; 20]);
    bytes.extend_from_slice(b"ee");
    bytes
}

#[test]
fn torrent_from_bytes_reads_announce_and_info() {
    let torrent = Torrent::from_bytes(&sample_torrent_bytes()).expect("well-formed torrent");
    assert_eq!(torrent.announce, "http://tracker.example/announce");
    assert_eq!(torrent.info.name, "test");
    assert_eq!(torrent.info.piece_length, 16384);
    assert_eq!(torrent.info.length, 16384);
    assert_eq!(torrent.info.pieces.0, vec![[0u8; 20]]);
}

#[test]
fn torrent_from_bytes_rejects_trailing_data() {
    let mut bytes = sample_torrent_bytes();
    bytes.push(b'x');
    assert!(matches!(
        Torrent::from_bytes(&bytes),
        Err(MetainfoError::TrailingBytes)
    ));
}

#[test]
fn torrent_from_bytes_rejects_malformed_bencode() {
    assert!(matches!(
        Torrent::from_bytes(b"not bencode"),
        Err(MetainfoError::Bencode(_))
    ));
}

#[test]
fn get_info_returns_equal_copy() {
    let torrent = Torrent::from_bytes(&sample_torrent_bytes()).expect("well-formed torrent");
    let info = torrent.get_info();
    assert_eq!(info.name, torrent.info.name);
    assert_eq!(info.piece_length, torrent.info.piece_length);
    assert_eq!(info.length, torrent.info.length);
    assert_eq!(info.pieces.0, torrent.info.pieces.0);
    assert_eq!(info.path, torrent.info.path);
}

#[test]
fn info_hash_is_deterministic_and_matches_reference() {
    let torrent = Torrent::from_bytes(&sample_torrent_bytes()).expect("well-formed torrent");
    // The canonical encoding of this info dictionary, written out by hand.
    let mut canonical = Vec::new();
    canonical.extend_from_slice(b"d6:lengthi16384e4:name4:test12:piece lengthi16384e6:pieces20:");
    canonical.extend_from_slice(&[0u8; 20]);
    canonical.extend_from_slice(b"e");
    let reference: [u8; 20] = sha1::Sha1::digest(&canonical).into();
    let first = torrent.get_sha1();
    let second = torrent.get_sha1();
    assert_eq!(first, second);
    assert_eq!(first, reference);
}

#[test]
fn info_hash_ignores_announce_field() {
    let torrent_a = Torrent::from_bytes(&sample_torrent_bytes()).expect("well-formed torrent");
    let mut other = Vec::new();
    other.extend_from_slice(b"d8:announce18:http://o.example/x4:infod");
    other.extend_from_slice(b"6:lengthi16384e4:name4:test12:piece lengthi16384e6:pieces20:");
    other.extend_from_slice(&[0u8; 20]);
    other.extend_from_slice(b"ee");
    let torrent_b = Torrent::from_bytes(&other).expect("well-formed torrent");
    assert_eq!(torrent_a.get_sha1(), torrent_b.get_sha1());
}

#[test]
fn info_hash_sorts_keys_and_covers_path() {
    // Info keys written out of order; the hash must come from the sorted
    // canonical encoding.
    let mut bytes = Vec::new();
    bytes.extend_from_slice(b"d8:announce31:http://tracker.example/announce4:infod");
    bytes.extend_from_slice(b"4:name4:test4:pathll3:dir8:file.txtee12:piece lengthi16384e");
    bytes.extend_from_slice(b"6:pieces20:");
    bytes.extend_from_slice(&[0u8; 20]);
    bytes.extend_from_slice(b"6:lengthi16384eee");
    let torrent = Torrent::from_bytes(&bytes).expect("well-formed torrent");
    assert_eq!(
        torrent.info.path,
        Some(vec![vec!["dir".to_string(), "file.txt".to_string()]])
    );
    let mut canonical = Vec::new();
    canonical.extend_from_slice(b"d6:lengthi16384e4:name4:test4:pathll3:dir8:file.txtee");
    canonical.extend_from_slice(b"12:piece lengthi16384e6:pieces20:");
    canonical.extend_from_slice(&[0u8; 20]);
    canonical.extend_from_slice(b"e");
    let reference: [u8; 20] = sha1::Sha1::digest(&canonical).into();
    assert_eq!(torrent.get_sha1(), reference);
}

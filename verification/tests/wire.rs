//! Tracker exchange and peer handshake behaviour.

use bittorrent::handshake::{Handshake, HandshakeError};
use bittorrent::info::MetainfoError;
use bittorrent::torrent::{urlencode, Torrent};
use bittorrent::tracker::{announce_url, decode_tracker_response, TrackerError};

#[test]
fn urlencode_percent_encodes_every_byte() {
    assert_eq!(urlencode(&[0x00, 0xFF, 0x1A]), "%00%ff%1a");
    assert_eq!(urlencode(&[]), "");
    // Even URL-safe bytes are percent-encoded.
    assert_eq!(urlencode(b"Az"), "%41%7a");
}

fn sample_torrent() -> Torrent {
    let mut bytes = Vec::new();
    bytes.extend_from_slice(b"d8:announce31:http://tracker.example/announce4:infod");
    bytes.extend_from_slice(b"6:lengthi16384e4:name4:test12:piece lengthi16384e6:pieces20:");
    bytes.extend_from_slice(&[0u8; 20]);
    bytes.extend_from_slice(b"ee");
    Torrent::from_bytes(&bytes).expect("well-formed torrent")
}

#[test]
fn announce_url_lists_all_parameters() {
    let torrent = sample_torrent();
    let hash = [0x12u8; 20];
    let url = announce_url(&torrent, &hash, "00112233445566778899", 6881);
    let expected = format!(
        "http://tracker.example/announce?peer_id=00112233445566778899&port=6881&uploaded=0&downloaded=0&left=16384&compact=1&info_hash={}",
        "%12".repeat(20)
    );
    assert_eq!(url, expected);
}

#[test]
fn announce_url_form_encodes_the_peer_id() {
    let torrent = sample_torrent();
    let hash = [0xABu8; 20];
    let url = announce_url(&torrent, &hash, "id with space&x", 80);
    assert!(url.contains("peer_id=id+with+space%26x&port=80&"));
    assert!(url.ends_with(&format!("&info_hash={}", "%ab".repeat(20))));
}

#[test]
fn tracker_response_decodes_interval_and_peers() {
    let mut body = Vec::new();
    body.extend_from_slice(b"d8:intervali1800e5:peers6:");
    body.extend_from_slice(&[127, 0, 0, 1, 0x1A, 0xE1]);
    body.extend_from_slice(b"e");
    let response = decode_tracker_response(&body).expect("well-formed response");
    assert_eq!(response.interval, 1800);
    assert_eq!(response.peers.0.len(), 1);
    assert_eq!(response.peers.0[0].ip, [127, 0, 0, 1]);
    assert_eq!(response.peers.0[0].port, 6881);
}

#[test]
fn tracker_response_rejects_five_byte_peer_blob() {
    let mut body = Vec::new();
    body.extend_from_slice(b"d8:intervali1800e5:peers5:");
    body.extend_from_slice(&[127, 0, 0, 1, 0x1A]);
    body.extend_from_slice(b"e");
    assert_eq!(
        decode_tracker_response(&body).map(|r| r.interval),
        Err(TrackerError::Decode(MetainfoError::PeersLength))
    );
}

#[test]
fn tracker_response_rejects_missing_keys_and_bad_bodies() {
    assert!(matches!(
        decode_tracker_response(b"d8:intervali1800ee"),
        Err(TrackerError::Decode(MetainfoError::Structure))
    ));
    assert!(matches!(
        decode_tracker_response(b"garbage"),
        Err(TrackerError::Decode(MetainfoError::Bencode(_)))
    ));
    assert!(matches!(
        decode_tracker_response(b"dee"),
        Err(TrackerError::Decode(MetainfoError::TrailingBytes))
    ));
}

#[test]
fn handshake_new_fills_fixed_fields() {
    let h = Handshake::new([7u8; 20], [9u8; 20]);
    assert_eq!(h.length, 19);
    assert_eq!(&h.bittorrent, b"BitTorrent protocol");
    assert_eq!(h.reserved, [0u8; 8]);
    assert_eq!(h.info_hash, [7u8; 20]);
    assert_eq!(h.peer_id, [9u8; 20]);
}

#[test]
fn handshake_serializes_to_sixty_eight_bytes() {
    let h = Handshake::new([7u8; 20], [9u8; 20]);
    let bytes = h.to_bytes();
    assert_eq!(bytes.len(), 68);
    assert_eq!(bytes[0], 19);
    assert_eq!(&bytes[1..20], b"BitTorrent protocol");
    assert_eq!(&bytes[20..28], &[0u8; 8]);
    assert_eq!(&bytes[28..48], &[7u8; 20]);
    assert_eq!(&bytes[48..68], &[9u8; 20]);
}

#[test]
fn handshake_round_trip_recovers_fields() {
    let h = Handshake::new([0xC3u8; 20], [0x5Au8; 20]);
    let bytes = h.to_bytes();
    let parsed = Handshake::from_bytes(&bytes).expect("self-produced bytes parse");
    assert_eq!(parsed.length, h.length);
    assert_eq!(parsed.bittorrent, h.bittorrent);
    assert_eq!(parsed.reserved, h.reserved);
    assert_eq!(parsed.info_hash, h.info_hash);
    assert_eq!(parsed.peer_id, h.peer_id);
}

#[test]
fn handshake_reply_with_wrong_info_hash_is_rejected() {
    let expected = [7u8; 20];
    let remote = Handshake::new([8u8; 20], [1u8; 20]);
    let reply = remote.to_bytes();
    assert_eq!(reply.len(), 68);
    assert_eq!(reply[0], 19);
    assert_eq!(&reply[1..20], b"BitTorrent protocol");
    assert_eq!(
        Handshake::validate_reply(&reply, &expected),
        Err(HandshakeError::InfoHashMismatch)
    );
}

#[test]
fn handshake_reply_with_matching_hash_yields_remote_peer_id() {
    let expected = [7u8; 20];
    let remote = Handshake::new(expected, [0x42u8; 20]);
    let reply = remote.to_bytes();
    assert_eq!(
        Handshake::validate_reply(&reply, &expected),
        Ok([0x42u8; 20])
    );
}

#[test]
fn handshake_rejects_wrong_length_and_protocol() {
    let h = Handshake::new([7u8; 20], [9u8; 20]);
    let mut bytes = h.to_bytes();
    assert_eq!(
        Handshake::from_bytes(&bytes[..67]),
        Err(HandshakeError::BadLength)
    );
    bytes[5] = b'X';
    assert_eq!(
        Handshake::from_bytes(&bytes),
        Err(HandshakeError::ProtocolMismatch)
    );
    let mut wrong_len = h.to_bytes();
    wrong_len[0] = 18;
    assert_eq!(
        Handshake::from_bytes(&wrong_len),
        Err(HandshakeError::ProtocolMismatch)
    );
}

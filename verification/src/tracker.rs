//! The tracker client's verifiable half: building the announce URL and
//! decoding the bencoded tracker response into a typed peer list.

use vstd::prelude::*;

verus! {

use crate::bencode::{SpecValue, spec_decode, BencodeValue, view_pairs, lemma_view_pairs};
use crate::info::{MetainfoError, Peers, peers_chunks, dict_get, dict_find};
use crate::torrent::{Torrent, percent_hex, urlencode};
use crate::text::{nat_digit_chars, nat_to_string};
use vstd::utf8::encode_utf8;

/// Why an announce exchange failed.
#[derive(Clone, Copy, Debug, PartialEq, Eq, Structural)]
pub enum TrackerError {
    /// The HTTP request could not be sent or answered.
    Transport,
    /// The response body is not the bencode dictionary the protocol
    /// promises.
    Decode(MetainfoError),
}

/// The bytes of the key `interval`.
pub open spec fn key_interval() -> Seq<u8> {
    seq![105u8, 110u8, 116u8, 101u8, 114u8, 118u8, 97u8, 108u8]
}

/// The bytes of the key `peers`.
pub open spec fn key_peers() -> Seq<u8> {
    seq![112u8, 101u8, 101u8, 114u8, 115u8]
}

/// A tracker's answer: how long to wait before asking again, and the
/// peers currently in the swarm.
pub struct TrackerResponse {
    /// Seconds the tracker asks the client to wait between announces.
    pub interval: usize,
    /// The peers, in the order the tracker listed them.
    pub peers: Peers,
}

/// The model of a tracker response.
pub ghost struct SpecTrackerResponse {
    pub interval: int,
    pub peers: Seq<(Seq<u8>, int)>,
}

impl TrackerResponse {
    /// The model of this response.
    pub open spec fn view(&self) -> SpecTrackerResponse {
        SpecTrackerResponse { interval: self.interval as int, peers: self.peers@ }
    }
}

/// What a tracker response dictionary must hold: `interval` an integer
/// that fits the machine and `peers` a compact blob of whole 6-byte
/// entries.
pub open spec fn spec_parse_tracker_response(v: SpecValue) -> Option<SpecTrackerResponse> {
    match v {
        SpecValue::Dictionary(ps) => match (dict_get(ps, key_interval()), dict_get(
            ps,
            key_peers(),
        )) {
            (Some(SpecValue::Integer(iv)), Some(SpecValue::ByteString(pb))) => if 0 <= iv
                <= usize::MAX && pb.len() % 6 == 0 {
                Some(SpecTrackerResponse { interval: iv, peers: peers_chunks(pb) })
            } else {
                None
            },
            _ => None,
        },
        _ => None,
    }
}

/// Decode a tracker's bencoded response body. Succeeds exactly when the
/// body holds one bencode term, nothing follows it, and the term carries
/// `interval` and `peers` in the required kinds.
pub fn decode_tracker_response(bytes: &[u8]) -> (r: Result<TrackerResponse, TrackerError>)
    ensures
        match spec_decode(bytes@) {
            Some(p) => {
                if p.1.len() == 0 {
                    match spec_parse_tracker_response(p.0) {
                        Some(tr) => r is Ok && r->Ok_0@ == tr,
                        None => r matches Err(TrackerError::Decode(_)),
                    }
                } else {
                    r == Err::<TrackerResponse, TrackerError>(
                        TrackerError::Decode(MetainfoError::TrailingBytes),
                    )
                }
            },
            None => r matches Err(TrackerError::Decode(MetainfoError::Bencode(_))),
        },
{
    let (value, consumed) = match crate::bencode::decode_bencoded_value(bytes) {
        Ok(p) => p,
        Err(e) => {
            return Err(TrackerError::Decode(MetainfoError::Bencode(e)));
        },
    };
    if consumed < bytes.len() {
        proof {
            assert(bytes@.skip(consumed as int).len() > 0);
        }
        return Err(TrackerError::Decode(MetainfoError::TrailingBytes));
    }
    proof {
        assert(bytes@.skip(consumed as int).len() == 0);
    }
    let entries = match &value {
        BencodeValue::Dictionary(entries) => entries,
        _ => {
            return Err(TrackerError::Decode(MetainfoError::Structure));
        },
    };
    let ghost ps = view_pairs(entries@);
    let mut ik: Vec<u8> = Vec::new();
    ik.push(105);
    ik.push(110);
    ik.push(116);
    ik.push(101);
    ik.push(114);
    ik.push(118);
    ik.push(97);
    ik.push(108);
    proof {
        assert(ik@ =~= key_interval());
    }
    let interval_int = match dict_find(entries, &ik) {
        Some(BencodeValue::Integer(x)) => *x,
        Some(_) => {
            proof {
                match dict_get(ps, key_interval()) {
                    Some(SpecValue::Integer(_)) => {
                        assert(false);
                    },
                    _ => {},
                }
            }
            return Err(TrackerError::Decode(MetainfoError::Structure));
        },
        None => {
            return Err(TrackerError::Decode(MetainfoError::Structure));
        },
    };
    if interval_int < 0 || (interval_int as u64) > (usize::MAX as u64) {
        return Err(TrackerError::Decode(MetainfoError::Structure));
    }
    let mut pk: Vec<u8> = Vec::new();
    pk.push(112);
    pk.push(101);
    pk.push(101);
    pk.push(114);
    pk.push(115);
    proof {
        assert(pk@ =~= key_peers());
    }
    let peers_blob = match dict_find(entries, &pk) {
        Some(BencodeValue::ByteString(pb)) => pb,
        Some(_) => {
            proof {
                match dict_get(ps, key_peers()) {
                    Some(SpecValue::ByteString(_)) => {
                        assert(false);
                    },
                    _ => {},
                }
            }
            return Err(TrackerError::Decode(MetainfoError::Structure));
        },
        None => {
            return Err(TrackerError::Decode(MetainfoError::Structure));
        },
    };
    let peers = match Peers::from_bytes(peers_blob.as_slice()) {
        Ok(p) => p,
        Err(e) => {
            return Err(TrackerError::Decode(e));
        },
    };
    Ok(TrackerResponse { interval: interval_int as usize, peers })
}

/// A byte that form-urlencoding passes through unchanged: letters,
/// digits, `*`, `-`, `.` and `_`.
pub open spec fn form_safe_byte(b: u8) -> bool {
    b == 42 || b == 45 || b == 46 || b == 95 || (48 <= b <= 57) || (65 <= b <= 90) || (97 <= b
        <= 122)
}

/// The uppercase hexadecimal character of a value below 16.
pub open spec fn upper_hex_char(n: u8) -> char {
    if n < 10 {
        (48 + n) as char
    } else {
        (55 + n) as char
    }
}

/// How form-urlencoding renders one byte: unchanged when safe, `+` for a
/// space, otherwise `%` and two uppercase hexadecimal characters.
pub open spec fn form_byte_chars(b: u8) -> Seq<char> {
    if b == 32 {
        seq!['+']
    } else if form_safe_byte(b) {
        seq![b as char]
    } else {
        seq!['%', upper_hex_char(b / 16), upper_hex_char(b % 16)]
    }
}

/// Form-urlencoding of a byte sequence, byte by byte.
pub open spec fn form_bytes_chars(bs: Seq<u8>) -> Seq<char>
    decreases bs.len(),
{
    if bs.len() == 0 {
        Seq::empty()
    } else {
        form_byte_chars(bs[0]) + form_bytes_chars(bs.drop_first())
    }
}

/// Form-urlencoding of a string: its UTF-8 bytes, byte by byte.
pub open spec fn form_component(s: Seq<char>) -> Seq<char> {
    form_bytes_chars(encode_utf8(s))
}

/// `name=value` pairs, each component form-urlencoded, joined by `&`.
pub open spec fn spec_form_pairs(ps: Seq<(Seq<char>, Seq<char>)>) -> Seq<char>
    decreases ps.len(),
{
    if ps.len() == 0 {
        Seq::empty()
    } else if ps.len() == 1 {
        form_component(ps[0].0) + seq!['='] + form_component(ps[0].1)
    } else {
        form_component(ps[0].0) + seq!['='] + form_component(ps[0].1) + seq!['&'] + spec_form_pairs(
            ps.drop_first(),
        )
    }
}

/// The models of a vector of string pairs, in order.
pub open spec fn pairs_views(ps: Seq<(String, String)>) -> Seq<(Seq<char>, Seq<char>)> {
    Seq::new(ps.len(), |i: int| (ps[i].0@, ps[i].1@))
}

#[verifier::external_type_specification]
#[verifier::external_body]
pub struct ExSerError(serde_urlencoded::ser::Error);

/// Relies on `serde_urlencoded::to_string`: a sequence of string pairs
/// serializes as `name=value` joined by `&`, each component
/// form-urlencoded over its UTF-8 bytes (safe bytes unchanged, space as
/// `+`, every other byte as `%` and two uppercase hexadecimal digits),
/// and string pairs never fail.
#[verifier::external_body]
fn form_urlencode(pairs: &Vec<(String, String)>) -> (r: Result<
    String,
    serde_urlencoded::ser::Error,
>)
    ensures
        r is Ok,
        r is Ok ==> r->Ok_0@ == spec_form_pairs(pairs_views(pairs@)),
{
    serde_urlencoded::to_string(pairs)
}

/// The full announce URL for one tracker exchange: the tracker address,
/// the standard query parameters, and the info-hash percent-encoded byte
/// for byte.
pub open spec fn spec_announce_url(
    announce: Seq<char>,
    hash: Seq<u8>,
    peer_id: Seq<char>,
    port: int,
    left: int,
) -> Seq<char> {
    announce + seq!['?'] + spec_form_pairs(spec_announce_pairs(peer_id, port, left)) + seq![
        '&',
        'i',
        'n',
        'f',
        'o',
        '_',
        'h',
        'a',
        's',
        'h',
        '=',
    ] + percent_hex(hash)
}

/// The six standard announce parameters, in protocol order.
pub open spec fn spec_announce_pairs(peer_id: Seq<char>, port: int, left: int) -> Seq<
    (Seq<char>, Seq<char>),
> {
    seq![
        (seq!['p', 'e', 'e', 'r', '_', 'i', 'd'], peer_id),
        (seq!['p', 'o', 'r', 't'], nat_digit_chars(port as nat)),
        (seq!['u', 'p', 'l', 'o', 'a', 'd', 'e', 'd'], nat_digit_chars(0)),
        (seq!['d', 'o', 'w', 'n', 'l', 'o', 'a', 'd', 'e', 'd'], nat_digit_chars(0)),
        (seq!['l', 'e', 'f', 't'], nat_digit_chars(left as nat)),
        (seq!['c', 'o', 'm', 'p', 'a', 'c', 't'], nat_digit_chars(1)),
    ]
}

/// Build the announce URL for `torrent`: a GET to its tracker with
/// `peer_id`, `port`, `uploaded`, `downloaded`, `left` and `compact`
/// form-urlencoded, and `info_hash` appended as its 20 raw bytes, each
/// percent-encoded.
pub fn announce_url(torrent: &Torrent, info_hash: &[u8; 20], peer_id: &str, port: u16) -> (r:
    String)
    ensures
        r@ == spec_announce_url(
            torrent.announce@,
            info_hash@,
            peer_id@,
            port as int,
            torrent.info@.length,
        ),
{
    let mut pairs: Vec<(String, String)> = Vec::new();
    proof {
        reveal_strlit("peer_id");
        reveal_strlit("port");
        reveal_strlit("uploaded");
        reveal_strlit("downloaded");
        reveal_strlit("left");
        reveal_strlit("compact");
    }
    pairs.push(("peer_id".to_owned(), peer_id.to_owned()));
    pairs.push(("port".to_owned(), nat_to_string(port as u64)));
    pairs.push(("uploaded".to_owned(), nat_to_string(0)));
    pairs.push(("downloaded".to_owned(), nat_to_string(0)));
    pairs.push(("left".to_owned(), nat_to_string(torrent.info.length as u64)));
    pairs.push(("compact".to_owned(), nat_to_string(1)));
    proof {
        assert(pairs_views(pairs@) =~= spec_announce_pairs(
            peer_id@,
            port as int,
            torrent.info@.length,
        )) by {
            assert("peer_id"@ =~= seq!['p', 'e', 'e', 'r', '_', 'i', 'd']);
            assert("port"@ =~= seq!['p', 'o', 'r', 't']);
            assert("uploaded"@ =~= seq!['u', 'p', 'l', 'o', 'a', 'd', 'e', 'd']);
            assert("downloaded"@ =~= seq!['d', 'o', 'w', 'n', 'l', 'o', 'a', 'd', 'e', 'd']);
            assert("left"@ =~= seq!['l', 'e', 'f', 't']);
            assert("compact"@ =~= seq!['c', 'o', 'm', 'p', 'a', 'c', 't']);
        }
    }
    let query = match form_urlencode(&pairs) {
        Ok(q) => q,
        Err(_) => vstd::pervasive::unreached(),
    };
    let mut out = String::new();
    out.append(torrent.announce.as_str());
    proof {
        reveal_strlit("?");
        reveal_strlit("&info_hash=");
    }
    out.append("?");
    out.append(query.as_str());
    out.append("&info_hash=");
    let hash_part = urlencode(info_hash.as_slice());
    out.append(hash_part.as_str());
    proof {
        assert("?"@ =~= seq!['?']);
        assert("&info_hash="@ =~= seq!['&', 'i', 'n', 'f', 'o', '_', 'h', 'a', 's', 'h', '=']);
        assert(out@ =~= spec_announce_url(
            torrent.announce@,
            info_hash@,
            peer_id@,
            port as int,
            torrent.info@.length,
        ));
    }
    out
}

} // verus!

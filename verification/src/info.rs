//! The typed torrent metadata model: piece digests, compact peer lists,
//! and the `info` dictionary.

use vstd::prelude::*;

verus! {

use crate::bencode::{
    BencodeValue, DecodeError, SpecValue, view_items, view_pairs, lemma_view_items,
    lemma_view_pairs,
};
use vstd::utf8::{valid_utf8, decode_utf8};

/// Why bytes failed to yield a metainfo structure.
#[derive(Clone, Copy, Debug, PartialEq, Eq, Structural)]
pub enum MetainfoError {
    /// The input is not well-formed bencode.
    Bencode(DecodeError),
    /// A bencode term was read but bytes follow it.
    TrailingBytes,
    /// A required field is missing or has the wrong kind.
    Structure,
    /// The `pieces` byte string is not a multiple of 20 bytes.
    PiecesLength,
    /// A compact peer blob is not a multiple of 6 bytes.
    PeersLength,
    /// A text field does not hold UTF-8.
    Utf8,
}

/// The SHA-1 digests of a torrent's pieces, 20 bytes each, in piece
/// order.
pub struct Pieces(pub Vec<[u8; 20]>);

/// `b` split into consecutive 20-byte chunks.
pub open spec fn chunks20(b: Seq<u8>) -> Seq<Seq<u8>> {
    Seq::new(b.len() / 20, |i: int| b.subrange(20 * i, 20 * i + 20))
}

/// The chunks of `ps` joined back together.
pub open spec fn flat_pieces(ps: Seq<Seq<u8>>) -> Seq<u8>
    decreases ps.len(),
{
    if ps.len() == 0 {
        Seq::empty()
    } else {
        ps[0] + flat_pieces(ps.drop_first())
    }
}

/// Joining concatenated chunk sequences joins their bytes.
pub proof fn lemma_flat_pieces_concat(s1: Seq<Seq<u8>>, s2: Seq<Seq<u8>>)
    ensures
        flat_pieces(s1 + s2) == flat_pieces(s1) + flat_pieces(s2),
    decreases s1.len(),
{
    if s1.len() == 0 {
        assert(s1 + s2 =~= s2);
        assert(flat_pieces(s1) + flat_pieces(s2) =~= flat_pieces(s2));
    } else {
        assert((s1 + s2).drop_first() =~= s1.drop_first() + s2);
        assert((s1 + s2)[0] == s1[0]);
        lemma_flat_pieces_concat(s1.drop_first(), s2);
        assert(s1[0] + (flat_pieces(s1.drop_first()) + flat_pieces(s2)) =~= (s1[0] + flat_pieces(
            s1.drop_first(),
        )) + flat_pieces(s2));
    }
}

impl Pieces {
    /// The model: one 20-byte sequence per piece, in order.
    pub open spec fn view(&self) -> Seq<Seq<u8>> {
        Seq::new(self.0@.len(), |i: int| self.0@[i]@)
    }

    /// Split a `pieces` byte string into its 20-byte digests. Exactly the
    /// inputs whose length is a multiple of 20 are accepted.
    pub fn from_bytes(b: &[u8]) -> (r: Result<Pieces, MetainfoError>)
        ensures
            r is Ok <==> b@.len() % 20 == 0,
            b@.len() % 20 != 0 ==> r == Err::<Pieces, MetainfoError>(MetainfoError::PiecesLength),
            r is Ok ==> r->Ok_0@ == chunks20(b@),
    {
        let n = b.len();
        if n % 20 != 0 {
            return Err(MetainfoError::PiecesLength);
        }
        let count = n / 20;
        let mut pieces: Vec<[u8; 20]> = Vec::new();
        let mut i: usize = 0;
        while i < count
            invariant
                0 <= i <= count,
                count == n / 20,
                n % 20 == 0,
                n == b@.len(),
                pieces@.len() == i,
                forall|t: int| 0 <= t < i ==> #[trigger] pieces@[t]@ == b@.subrange(
                    20 * t,
                    20 * t + 20,
                ),
            decreases count - i,
        {
            let mut a: [u8; 20] = [0u8; 20];
            let mut j: usize = 0;
            assert(20 * i + 20 <= n) by {
                assert(i + 1 <= count);
                assert(20 * (i + 1) <= 20 * count);
                assert(20 * count == n);
            }
            while j < 20
                invariant
                    0 <= j <= 20,
                    20 * i + 20 <= n == b@.len(),
                    forall|t: int| 0 <= t < j ==> #[trigger] a@[t] == b@[20 * (i as int) + t],
                decreases 20 - j,
            {
                a[j] = b[i * 20 + j];
                j = j + 1;
            }
            proof {
                assert(a@ =~= b@.subrange(20 * (i as int), 20 * (i as int) + 20));
            }
            pieces.push(a);
            i = i + 1;
        }
        let r = Pieces(pieces);
        proof {
            assert(r@ =~= chunks20(b@));
        }
        Ok(r)
    }

    /// The concatenated digest bytes, the inverse of `from_bytes`.
    pub fn to_bytes(&self) -> (r: Vec<u8>)
        ensures
            r@ == flat_pieces(self@),
    {
        let mut out: Vec<u8> = Vec::new();
        let mut t: usize = 0;
        proof {
            assert(self@.take(0) =~= Seq::<Seq<u8>>::empty());
            assert(out@ =~= flat_pieces(self@.take(0)));
        }
        while t < self.0.len()
            invariant
                0 <= t <= self.0@.len(),
                self@.len() == self.0@.len(),
                out@ == flat_pieces(self@.take(t as int)),
            decreases self.0@.len() - t,
        {
            let mut j: usize = 0;
            while j < 20
                invariant
                    0 <= j <= 20,
                    0 <= t < self.0@.len(),
                    self@.len() == self.0@.len(),
                    out@ == flat_pieces(self@.take(t as int)) + self.0@[t as int]@.take(j as int),
                decreases 20 - j,
            {
                out.push(self.0[t][j]);
                proof {
                    assert(flat_pieces(self@.take(t as int)) + self.0@[t as int]@.take(j as int)
                        + seq![self.0@[t as int]@[j as int]] =~= flat_pieces(self@.take(t as int))
                        + self.0@[t as int]@.take(j + 1));
                }
                j = j + 1;
            }
            proof {
                assert(self@.take(t + 1) =~= self@.take(t as int) + seq![self@[t as int]]);
                lemma_flat_pieces_concat(self@.take(t as int), seq![self@[t as int]]);
                assert(flat_pieces(seq![self@[t as int]]) =~= self@[t as int]) by {
                    assert(seq![self@[t as int]].drop_first() =~= Seq::<Seq<u8>>::empty());
                    assert(flat_pieces(Seq::<Seq<u8>>::empty()) == Seq::<u8>::empty());
                    assert(seq![self@[t as int]][0] == self@[t as int]);
                    assert(self@[t as int] + Seq::<u8>::empty() =~= self@[t as int]);
                }
                assert(self.0@[t as int]@.take(20) =~= self@[t as int]);
                assert(out@ =~= flat_pieces(self@.take(t + 1)));
            }
            t = t + 1;
        }
        proof {
            assert(self@.take(self@.len() as int) =~= self@);
        }
        out
    }
}

/// One peer's address in the tracker's compact format: four IPv4 octets
/// in address order and a port.
#[derive(Clone, Copy, Debug, PartialEq, Eq)]
pub struct PeerAddr {
    pub ip: [u8; 4],
    pub port: u16,
}

/// The peers of a tracker response, in the order received.
pub struct Peers(pub Vec<PeerAddr>);

/// `b` split into 6-byte entries: four address octets and a big-endian
/// port each.
pub open spec fn peers_chunks(b: Seq<u8>) -> Seq<(Seq<u8>, int)> {
    Seq::new(
        b.len() / 6,
        |i: int| (b.subrange(6 * i, 6 * i + 4), b[6 * i + 4] * 256 + b[6 * i + 5]),
    )
}

/// The 6-byte entries of `ps` joined back together.
pub open spec fn peers_bytes(ps: Seq<(Seq<u8>, int)>) -> Seq<u8>
    decreases ps.len(),
{
    if ps.len() == 0 {
        Seq::empty()
    } else {
        ps[0].0 + seq![(ps[0].1 / 256) as u8, (ps[0].1 % 256) as u8] + peers_bytes(ps.drop_first())
    }
}

/// Joining concatenated peer entries joins their bytes.
pub proof fn lemma_peers_bytes_concat(s1: Seq<(Seq<u8>, int)>, s2: Seq<(Seq<u8>, int)>)
    ensures
        peers_bytes(s1 + s2) == peers_bytes(s1) + peers_bytes(s2),
    decreases s1.len(),
{
    if s1.len() == 0 {
        assert(s1 + s2 =~= s2);
        assert(peers_bytes(s1) + peers_bytes(s2) =~= peers_bytes(s2));
    } else {
        assert((s1 + s2).drop_first() =~= s1.drop_first() + s2);
        assert((s1 + s2)[0] == s1[0]);
        lemma_peers_bytes_concat(s1.drop_first(), s2);
        let e = s1[0].0 + seq![(s1[0].1 / 256) as u8, (s1[0].1 % 256) as u8];
        assert(e + (peers_bytes(s1.drop_first()) + peers_bytes(s2)) =~= (e + peers_bytes(
            s1.drop_first(),
        )) + peers_bytes(s2));
    }
}

impl Peers {
    /// The model: per peer, its four address octets and its port number.
    pub open spec fn view(&self) -> Seq<(Seq<u8>, int)> {
        Seq::new(self.0@.len(), |i: int| (self.0@[i].ip@, self.0@[i].port as int))
    }

    /// Split a compact peer blob into its entries. Exactly the inputs
    /// whose length is a multiple of 6 are accepted.
    pub fn from_bytes(b: &[u8]) -> (r: Result<Peers, MetainfoError>)
        ensures
            r is Ok <==> b@.len() % 6 == 0,
            b@.len() % 6 != 0 ==> r == Err::<Peers, MetainfoError>(MetainfoError::PeersLength),
            r is Ok ==> r->Ok_0@ == peers_chunks(b@),
    {
        let n = b.len();
        if n % 6 != 0 {
            return Err(MetainfoError::PeersLength);
        }
        let count = n / 6;
        let mut peers: Vec<PeerAddr> = Vec::new();
        let mut i: usize = 0;
        while i < count
            invariant
                0 <= i <= count,
                count == n / 6,
                n % 6 == 0,
                n == b@.len(),
                peers@.len() == i,
                forall|t: int| 0 <= t < i ==> #[trigger] peers@[t].ip@ == b@.subrange(
                    6 * t,
                    6 * t + 4,
                ) && peers@[t].port as int == b@[6 * t + 4] * 256 + b@[6 * t + 5],
            decreases count - i,
        {
            assert(6 * i + 6 <= n) by {
                assert(i + 1 <= count);
                assert(6 * (i + 1) <= 6 * count);
                assert(6 * count == n);
            }
            let base = i * 6;
            let ip: [u8; 4] = [b[base], b[base + 1], b[base + 2], b[base + 3]];
            let port: u16 = (b[base + 4] as u16) * 256 + (b[base + 5] as u16);
            proof {
                assert(ip@ =~= b@.subrange(6 * (i as int), 6 * (i as int) + 4));
            }
            peers.push(PeerAddr { ip, port });
            i = i + 1;
        }
        let r = Peers(peers);
        proof {
            assert(r@ =~= peers_chunks(b@));
        }
        Ok(r)
    }

    /// The compact blob of these peers, the inverse of `from_bytes`.
    pub fn to_bytes(&self) -> (r: Vec<u8>)
        ensures
            r@ == peers_bytes(self@),
    {
        let mut out: Vec<u8> = Vec::new();
        let mut t: usize = 0;
        proof {
            assert(self@.take(0) =~= Seq::<(Seq<u8>, int)>::empty());
            assert(out@ =~= peers_bytes(self@.take(0)));
        }
        while t < self.0.len()
            invariant
                0 <= t <= self.0@.len(),
                self@.len() == self.0@.len(),
                out@ == peers_bytes(self@.take(t as int)),
            decreases self.0@.len() - t,
        {
            let p = self.0[t];
            out.push(p.ip[0]);
            out.push(p.ip[1]);
            out.push(p.ip[2]);
            out.push(p.ip[3]);
            out.push((p.port / 256) as u8);
            out.push((p.port % 256) as u8);
            proof {
                assert(self@.take(t + 1) =~= self@.take(t as int) + seq![self@[t as int]]);
                lemma_peers_bytes_concat(self@.take(t as int), seq![self@[t as int]]);
                let e = self@[t as int].0 + seq![
                    (self@[t as int].1 / 256) as u8,
                    (self@[t as int].1 % 256) as u8,
                ];
                assert(peers_bytes(seq![self@[t as int]]) =~= e) by {
                    assert(seq![self@[t as int]].drop_first() =~= Seq::<(Seq<u8>, int)>::empty());
                    assert(peers_bytes(Seq::<(Seq<u8>, int)>::empty()) == Seq::<u8>::empty());
                    assert(seq![self@[t as int]][0] == self@[t as int]);
                    assert(e + Seq::<u8>::empty() =~= e);
                }
                assert(self@[t as int].0 =~= p.ip@);
                assert(p.ip@ =~= seq![p.ip@[0], p.ip@[1], p.ip@[2], p.ip@[3]]);
                assert(out@ =~= peers_bytes(self@.take(t + 1)));
            }
            t = t + 1;
        }
        proof {
            assert(self@.take(self@.len() as int) =~= self@);
        }
        out
    }
}

/// The bytes of the key `name`.
pub open spec fn key_name() -> Seq<u8> {
    seq![110u8, 97u8, 109u8, 101u8]
}

/// The bytes of the key `piece length`.
pub open spec fn key_piece_length() -> Seq<u8> {
    seq![112u8, 105u8, 101u8, 99u8, 101u8, 32u8, 108u8, 101u8, 110u8, 103u8, 116u8, 104u8]
}

/// The bytes of the key `pieces`.
pub open spec fn key_pieces() -> Seq<u8> {
    seq![112u8, 105u8, 101u8, 99u8, 101u8, 115u8]
}

/// The bytes of the key `length`.
pub open spec fn key_length() -> Seq<u8> {
    seq![108u8, 101u8, 110u8, 103u8, 116u8, 104u8]
}

/// The bytes of the key `path`.
pub open spec fn key_path() -> Seq<u8> {
    seq![112u8, 97u8, 116u8, 104u8]
}

/// The value of the first entry with key `k`, if any.
pub open spec fn dict_get(ps: Seq<(Seq<u8>, SpecValue)>, k: Seq<u8>) -> Option<SpecValue>
    decreases ps.len(),
{
    if ps.len() == 0 {
        None
    } else if ps[0].0 == k {
        Some(ps[0].1)
    } else {
        dict_get(ps.drop_first(), k)
    }
}

/// Look a key up in decoded dictionary entries.
#[verifier::loop_isolation(false)]
pub(crate) fn dict_find<'a>(entries: &'a Vec<(Vec<u8>, BencodeValue)>, k: &Vec<u8>) -> (r: Option<
    &'a BencodeValue,
>)
    ensures
        match r {
            Some(v) => dict_get(view_pairs(entries@), k@) == Some(v@),
            None => dict_get(view_pairs(entries@), k@) is None,
        },
{
    proof {
        lemma_view_pairs(entries@);
    }
    let ghost full = view_pairs(entries@);
    let mut idx: usize = 0;
    proof {
        assert(full.skip(0) =~= full);
    }
    while idx < entries.len()
        invariant
            0 <= idx <= entries@.len(),
            dict_get(full, k@) == dict_get(full.skip(idx as int), k@),
        decreases entries@.len() - idx,
    {
        proof {
            assert(full.skip(idx as int)[0] == full[idx as int]);
            assert(full.skip(idx as int).drop_first() =~= full.skip(idx + 1));
        }
        if crate::bencode::key_eq(&entries[idx].0, k) {
            return Some(&entries[idx].1);
        }
        idx = idx + 1;
    }
    assert(full.skip(entries@.len() as int).len() == 0);
    None
}

/// The model of a torrent's `info` dictionary.
pub ghost struct SpecInfo {
    pub name: Seq<char>,
    pub piece_length: int,
    pub pieces: Seq<Seq<u8>>,
    pub length: int,
    pub path: Option<Seq<Seq<Seq<char>>>>,
}

/// One torrent's `info` data: the fields BEP 3 requires of a single-file
/// torrent, and the optional multi-file `path` list.
pub struct Info {
    /// Suggested name (or directory, for a multi-file layout) to save as.
    pub name: String,
    /// Bytes per piece; every piece but the last has exactly this size.
    pub piece_length: usize,
    /// The 20-byte SHA-1 digest of each piece, in piece order.
    pub pieces: Pieces,
    /// Total byte size of the single file.
    pub length: usize,
    /// Optional subdirectory paths for a multi-file layout; an empty outer
    /// list is structurally accepted and left to callers to flag.
    pub path: Option<Vec<Vec<String>>>,
}

/// The models of a vector of strings, in order.
pub open spec fn strings_view(v: Seq<String>) -> Seq<Seq<char>> {
    Seq::new(v.len(), |i: int| v[i]@)
}

/// The models of a vector of path segment lists, in order.
pub open spec fn paths_view(v: Seq<Vec<String>>) -> Seq<Seq<Seq<char>>> {
    Seq::new(v.len(), |i: int| strings_view(v[i]@))
}

impl Info {
    /// The model of this `info` data.
    pub open spec fn view(&self) -> SpecInfo {
        SpecInfo {
            name: self.name@,
            piece_length: self.piece_length as int,
            pieces: self.pieces@,
            length: self.length as int,
            path: match self.path {
                Some(p) => Some(paths_view(p@)),
                None => None,
            },
        }
    }
}

/// Parse the segments of one path entry: each must be a UTF-8 byte
/// string.
pub open spec fn spec_parse_segs(segs: Seq<SpecValue>) -> Option<Seq<Seq<char>>>
    decreases segs.len(),
{
    if segs.len() == 0 {
        Some(Seq::empty())
    } else {
        match segs[0] {
            SpecValue::ByteString(b) => if valid_utf8(b) {
                match spec_parse_segs(segs.drop_first()) {
                    Some(t) => Some(seq![decode_utf8(b)] + t),
                    None => None,
                }
            } else {
                None
            },
            _ => None,
        }
    }
}

/// Parse the entries of a `path` list: each must itself be a list of
/// UTF-8 byte strings.
pub open spec fn spec_parse_path_items(items: Seq<SpecValue>) -> Option<Seq<Seq<Seq<char>>>>
    decreases items.len(),
{
    if items.len() == 0 {
        Some(Seq::empty())
    } else {
        match items[0] {
            SpecValue::List(segs) => match spec_parse_segs(segs) {
                Some(ss) => match spec_parse_path_items(items.drop_first()) {
                    Some(t) => Some(seq![ss] + t),
                    None => None,
                },
                None => None,
            },
            _ => None,
        }
    }
}

/// Parse an optional `path` value: absent is accepted as no path; present
/// it must be a list of segment lists.
pub open spec fn spec_parse_path(o: Option<SpecValue>) -> Option<Option<Seq<Seq<Seq<char>>>>> {
    match o {
        None => Some(None),
        Some(SpecValue::List(items)) => match spec_parse_path_items(items) {
            Some(x) => Some(Some(x)),
            None => None,
        },
        Some(_) => None,
    }
}

/// What an `info` dictionary must hold to parse: `name` a UTF-8 byte
/// string, `piece length` and `length` integers that fit the machine,
/// `pieces` a byte string of whole 20-byte digests, and `path`, when
/// present, a list of lists of UTF-8 byte strings.
pub open spec fn spec_parse_info(v: SpecValue) -> Option<SpecInfo> {
    match v {
        SpecValue::Dictionary(ps) => match (
            dict_get(ps, key_name()),
            dict_get(ps, key_piece_length()),
            dict_get(ps, key_pieces()),
            dict_get(ps, key_length()),
        ) {
            (
                Some(SpecValue::ByteString(nb)),
                Some(SpecValue::Integer(pl)),
                Some(SpecValue::ByteString(pb)),
                Some(SpecValue::Integer(l)),
            ) => if valid_utf8(nb) && 0 <= pl <= usize::MAX && pb.len() % 20 == 0 && 0 <= l
                <= usize::MAX {
                match spec_parse_path(dict_get(ps, key_path())) {
                    Some(path) => Some(
                        SpecInfo {
                            name: decode_utf8(nb),
                            piece_length: pl,
                            pieces: chunks20(pb),
                            length: l,
                            path,
                        },
                    ),
                    None => None,
                }
            } else {
                None
            },
            _ => None,
        },
        _ => None,
    }
}

/// Copy a byte vector.
pub(crate) fn clone_bytes(src: &Vec<u8>) -> (r: Vec<u8>)
    ensures
        r@ == src@,
{
    vstd::slice::slice_to_vec(src.as_slice())
}

/// Parse one path entry's segment list.
#[verifier::loop_isolation(false)]
fn parse_segs(segs: &Vec<BencodeValue>) -> (r: Result<Vec<String>, MetainfoError>)
    ensures
        match r {
            Ok(ss) => spec_parse_segs(view_items(segs@)) == Some(strings_view(ss@)),
            Err(_) => spec_parse_segs(view_items(segs@)) is None,
        },
{
    proof {
        lemma_view_items(segs@);
    }
    let ghost whole = view_items(segs@);
    let mut out: Vec<String> = Vec::new();
    let mut t: usize = 0;
    proof {
        assert(whole.skip(0) =~= whole);
    }
    while t < segs.len()
        invariant
            0 <= t <= segs@.len(),
            out@.len() == t,
            match spec_parse_segs(whole.skip(t as int)) {
                Some(tail) => spec_parse_segs(whole) == Some(strings_view(out@) + tail),
                None => spec_parse_segs(whole) is None,
            },
        decreases segs@.len() - t,
    {
        proof {
            assert(whole.skip(t as int)[0] == whole[t as int]);
            assert(whole.skip(t as int).drop_first() =~= whole.skip(t + 1));
        }
        match &segs[t] {
            BencodeValue::ByteString(b) => {
                let bytes = clone_bytes(b);
                match crate::text::string_from_utf8(bytes) {
                    Some(s) => {
                        out.push(s);
                        proof {
                            assert(strings_view(out@) =~= strings_view(out@.drop_last()).push(
                                decode_utf8(b@),
                            ));
                            match spec_parse_segs(whole.skip(t + 1)) {
                                Some(tail) => {
                                    assert(strings_view(out@.drop_last()) + (seq![
                                        decode_utf8(b@),
                                    ] + tail) =~= strings_view(out@) + tail);
                                },
                                None => {},
                            }
                        }
                        t = t + 1;
                    },
                    None => {
                        return Err(MetainfoError::Utf8);
                    },
                }
            },
            _ => {
                proof {
                    match whole[t as int] {
                        SpecValue::ByteString(_) => {
                            assert(false);
                        },
                        _ => {},
                    }
                }
                return Err(MetainfoError::Structure);
            },
        }
    }
    proof {
        assert(whole.skip(segs@.len() as int).len() == 0);
        assert(strings_view(out@) + Seq::<Seq<char>>::empty() =~= strings_view(out@));
    }
    Ok(out)
}

/// Parse a `path` list's entries.
#[verifier::loop_isolation(false)]
fn parse_path_items(items: &Vec<BencodeValue>) -> (r: Result<Vec<Vec<String>>, MetainfoError>)
    ensures
        match r {
            Ok(ps) => spec_parse_path_items(view_items(items@)) == Some(paths_view(ps@)),
            Err(_) => spec_parse_path_items(view_items(items@)) is None,
        },
{
    proof {
        lemma_view_items(items@);
    }
    let ghost whole = view_items(items@);
    let mut out: Vec<Vec<String>> = Vec::new();
    let mut t: usize = 0;
    proof {
        assert(whole.skip(0) =~= whole);
    }
    while t < items.len()
        invariant
            0 <= t <= items@.len(),
            out@.len() == t,
            match spec_parse_path_items(whole.skip(t as int)) {
                Some(tail) => spec_parse_path_items(whole) == Some(paths_view(out@) + tail),
                None => spec_parse_path_items(whole) is None,
            },
        decreases items@.len() - t,
    {
        proof {
            assert(whole.skip(t as int)[0] == whole[t as int]);
            assert(whole.skip(t as int).drop_first() =~= whole.skip(t + 1));
        }
        match &items[t] {
            BencodeValue::List(segs) => {
                match parse_segs(segs) {
                    Ok(ss) => {
                        out.push(ss);
                        proof {
                            assert(paths_view(out@) =~= paths_view(out@.drop_last()).push(
                                strings_view(ss@),
                            ));
                            match spec_parse_path_items(whole.skip(t + 1)) {
                                Some(tail) => {
                                    assert(paths_view(out@.drop_last()) + (seq![
                                        strings_view(ss@),
                                    ] + tail) =~= paths_view(out@) + tail);
                                },
                                None => {},
                            }
                        }
                        t = t + 1;
                    },
                    Err(e) => {
                        return Err(e);
                    },
                }
            },
            _ => {
                proof {
                    match whole[t as int] {
                        SpecValue::List(_) => {
                            assert(false);
                        },
                        _ => {},
                    }
                }
                return Err(MetainfoError::Structure);
            },
        }
    }
    proof {
        assert(whole.skip(items@.len() as int).len() == 0);
        assert(paths_view(out@) + Seq::<Seq<Seq<char>>>::empty() =~= paths_view(out@));
    }
    Ok(out)
}

impl Info {
    /// Build the typed `info` data from a decoded bencode term. Exactly
    /// the terms `spec_parse_info` accepts succeed.
    pub fn from_value(v: &BencodeValue) -> (r: Result<Info, MetainfoError>)
        ensures
            r is Ok <==> spec_parse_info(v@) is Some,
            r is Ok ==> Some(r->Ok_0@) == spec_parse_info(v@),
            // Both sizes come from bencode integers, so they fit `i64`.
            r is Ok ==> r->Ok_0@.length <= i64::MAX && r->Ok_0@.piece_length <= i64::MAX,
    {
        let entries = match v {
            BencodeValue::Dictionary(entries) => entries,
            _ => {
                return Err(MetainfoError::Structure);
            },
        };
        let ghost ps = view_pairs(entries@);
        let mut nk: Vec<u8> = Vec::new();
        nk.push(110);
        nk.push(97);
        nk.push(109);
        nk.push(101);
        proof {
            assert(nk@ =~= key_name());
        }
        let name_bytes = match dict_find(entries, &nk) {
            Some(BencodeValue::ByteString(nb)) => nb,
            Some(other) => {
                proof {
                    match dict_get(ps, key_name()) {
                        Some(SpecValue::ByteString(_)) => {
                            assert(false);
                        },
                        _ => {},
                    }
                }
                return Err(MetainfoError::Structure);
            },
            None => {
                return Err(MetainfoError::Structure);
            },
        };
        let mut plk: Vec<u8> = Vec::new();
        plk.push(112);
        plk.push(105);
        plk.push(101);
        plk.push(99);
        plk.push(101);
        plk.push(32);
        plk.push(108);
        plk.push(101);
        plk.push(110);
        plk.push(103);
        plk.push(116);
        plk.push(104);
        proof {
            assert(plk@ =~= key_piece_length());
        }
        let piece_length_int = match dict_find(entries, &plk) {
            Some(BencodeValue::Integer(x)) => *x,
            Some(_) => {
                proof {
                    match dict_get(ps, key_piece_length()) {
                        Some(SpecValue::Integer(_)) => {
                            assert(false);
                        },
                        _ => {},
                    }
                }
                return Err(MetainfoError::Structure);
            },
            None => {
                return Err(MetainfoError::Structure);
            },
        };
        let mut psk: Vec<u8> = Vec::new();
        psk.push(112);
        psk.push(105);
        psk.push(101);
        psk.push(99);
        psk.push(101);
        psk.push(115);
        proof {
            assert(psk@ =~= key_pieces());
        }
        let pieces_bytes = match dict_find(entries, &psk) {
            Some(BencodeValue::ByteString(pb)) => pb,
            Some(_) => {
                proof {
                    match dict_get(ps, key_pieces()) {
                        Some(SpecValue::ByteString(_)) => {
                            assert(false);
                        },
                        _ => {},
                    }
                }
                return Err(MetainfoError::Structure);
            },
            None => {
                return Err(MetainfoError::Structure);
            },
        };
        let mut lk: Vec<u8> = Vec::new();
        lk.push(108);
        lk.push(101);
        lk.push(110);
        lk.push(103);
        lk.push(116);
        lk.push(104);
        proof {
            assert(lk@ =~= key_length());
        }
        let length_int = match dict_find(entries, &lk) {
            Some(BencodeValue::Integer(x)) => *x,
            Some(_) => {
                proof {
                    match dict_get(ps, key_length()) {
                        Some(SpecValue::Integer(_)) => {
                            assert(false);
                        },
                        _ => {},
                    }
                }
                return Err(MetainfoError::Structure);
            },
            None => {
                return Err(MetainfoError::Structure);
            },
        };
        if piece_length_int < 0 || (piece_length_int as u64) > (usize::MAX as u64) {
            return Err(MetainfoError::Structure);
        }
        if length_int < 0 || (length_int as u64) > (usize::MAX as u64) {
            return Err(MetainfoError::Structure);
        }
        let name = match crate::text::string_from_utf8(clone_bytes(name_bytes)) {
            Some(s) => s,
            None => {
                return Err(MetainfoError::Utf8);
            },
        };
        let pieces = match Pieces::from_bytes(pieces_bytes.as_slice()) {
            Ok(p) => p,
            Err(e) => {
                return Err(e);
            },
        };
        let mut pk: Vec<u8> = Vec::new();
        pk.push(112);
        pk.push(97);
        pk.push(116);
        pk.push(104);
        proof {
            assert(pk@ =~= key_path());
        }
        let path = match dict_find(entries, &pk) {
            None => None,
            Some(BencodeValue::List(items)) => {
                match parse_path_items(items) {
                    Ok(p) => Some(p),
                    Err(e) => {
                        return Err(e);
                    },
                }
            },
            Some(_) => {
                proof {
                    match dict_get(ps, key_path()) {
                        Some(SpecValue::List(_)) => {
                            assert(false);
                        },
                        None => {
                            assert(false);
                        },
                        _ => {},
                    }
                }
                return Err(MetainfoError::Structure);
            },
        };
        let info = Info {
            name,
            piece_length: piece_length_int as usize,
            pieces,
            length: length_int as usize,
            path,
        };
        proof {
            let si = spec_parse_info(v@)->0;
            assert(info@.pieces =~= si.pieces);
            match info@.path {
                Some(p) => {
                    assert(info@.path == si.path);
                },
                None => {},
            }
        }
        Ok(info)
    }
}

} // verus!

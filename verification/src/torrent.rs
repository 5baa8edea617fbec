//! The torrent file model: the top-level dictionary with its tracker URL
//! and `info` data, and the swarm identifier derived from the latter.

use vstd::prelude::*;

verus! {

use crate::bencode::{
    BencodeValue, SpecValue, spec_encode, spec_decode, view_items, view_pairs, lemma_view_items,
    lemma_view_pairs,
};
use crate::info::{
    Info, SpecInfo, MetainfoError, dict_get, key_length, key_name, key_piece_length, key_pieces,
    key_path, strings_view, paths_view, flat_pieces, clone_bytes,
};
use vstd::utf8::{valid_utf8, decode_utf8, encode_utf8};

/// The bytes of the key `announce`.
pub open spec fn key_announce() -> Seq<u8> {
    seq![97u8, 110u8, 110u8, 111u8, 117u8, 110u8, 99u8, 101u8]
}

/// The bytes of the key `info`.
pub open spec fn key_info() -> Seq<u8> {
    seq![105u8, 110u8, 102u8, 111u8]
}

/// The model of a torrent file.
pub ghost struct SpecTorrent {
    pub announce: Seq<char>,
    pub info: SpecInfo,
}

/// One torrent: the tracker URL and the `info` data it was loaded with.
pub struct Torrent {
    /// The URL of the tracker that coordinates this torrent's peers.
    pub announce: String,
    /// The torrent's `info` dictionary.
    pub info: Info,
}

impl Torrent {
    /// The model of this torrent.
    pub open spec fn view(&self) -> SpecTorrent {
        SpecTorrent { announce: self.announce@, info: self.info@ }
    }
}

/// What a torrent dictionary must hold to parse: `announce` a UTF-8 byte
/// string and `info` a dictionary that `spec_parse_info` accepts.
pub open spec fn spec_parse_torrent(v: SpecValue) -> Option<SpecTorrent> {
    match v {
        SpecValue::Dictionary(ps) => match dict_get(ps, key_announce()) {
            Some(SpecValue::ByteString(ab)) => if valid_utf8(ab) {
                match dict_get(ps, key_info()) {
                    Some(iv) => match crate::info::spec_parse_info(iv) {
                        Some(si) => Some(SpecTorrent { announce: decode_utf8(ab), info: si }),
                        None => None,
                    },
                    None => None,
                }
            } else {
                None
            },
            _ => None,
        },
        _ => None,
    }
}

/// The 20-byte SHA-1 digest of `bytes`, as the `sha1` crate computes it.
pub uninterp spec fn sha1_of(bytes: Seq<u8>) -> Seq<u8>;

/// Relies on `sha1::Sha1` through the `Digest` interface: the 20-byte
/// SHA-1 digest of the input, a function of the input bytes alone.
#[verifier::external_body]
pub(crate) fn sha1_digest(bytes: &[u8]) -> (r: [u8; 20])
    ensures
        r@ == sha1_of(bytes@),
{
    let mut hasher: sha1::Sha1 = sha1::Digest::new();
    sha1::Digest::update(&mut hasher, bytes);
    sha1::Digest::finalize(hasher).into()
}

/// The lowercase hexadecimal character of a value below 16.
pub open spec fn hex_char_of(n: u8) -> char {
    if n < 10 {
        (48 + n) as char
    } else {
        (87 + n) as char
    }
}

/// Two lowercase hexadecimal characters per byte, in order.
pub open spec fn hex_of(bytes: Seq<u8>) -> Seq<char>
    decreases bytes.len(),
{
    if bytes.len() == 0 {
        Seq::empty()
    } else {
        seq![hex_char_of(bytes[0] / 16), hex_char_of(bytes[0] % 16)] + hex_of(bytes.drop_first())
    }
}

/// Relies on `hex::encode`: two lowercase hexadecimal digits per input
/// byte, most significant first, in input order.
#[verifier::external_body]
pub(crate) fn hex_encode(bytes: &[u8]) -> (r: String)
    ensures
        r@ == hex_of(bytes@),
{
    hex::encode(bytes)
}

/// Every byte percent-encoded: `%` and two lowercase hexadecimal
/// characters each, in order.
pub open spec fn percent_hex(bytes: Seq<u8>) -> Seq<char>
    decreases bytes.len(),
{
    if bytes.len() == 0 {
        Seq::empty()
    } else {
        seq!['%', hex_char_of(bytes[0] / 16), hex_char_of(bytes[0] % 16)] + percent_hex(
            bytes.drop_first(),
        )
    }
}

/// Percent-encode every byte of `t`, URL-safe or not: the form the
/// tracker protocol requires of the raw `info_hash` bytes.
pub fn urlencode(t: &[u8]) -> (r: String)
    ensures
        r@ == percent_hex(t@),
{
    let mut out = String::new();
    let mut i: usize = 0;
    proof {
        assert(t@.take(0) =~= Seq::<u8>::empty());
        assert(out@ =~= percent_hex(t@.take(0)));
    }
    while i < t.len()
        invariant
            0 <= i <= t@.len(),
            out@ == percent_hex(t@.take(i as int)),
        decreases t@.len() - i,
    {
        let mut one: Vec<u8> = Vec::new();
        one.push(t[i]);
        let h = hex_encode(one.as_slice());
        proof {
            reveal_strlit("%");
        }
        out.append("%");
        out.append(h.as_str());
        proof {
            let b = t@[i as int];
            assert(one@ =~= seq![b]);
            assert(hex_of(seq![b]) =~= seq![hex_char_of(b / 16), hex_char_of(b % 16)]) by {
                assert(seq![b].drop_first() =~= Seq::<u8>::empty());
                assert(hex_of(Seq::<u8>::empty()) == Seq::<char>::empty());
            }
            assert(percent_hex(t@.take(i as int)) + (seq!['%'] + hex_of(seq![b])) =~= percent_hex(
                t@.take(i as int),
            ) + seq!['%', hex_char_of(b / 16), hex_char_of(b % 16)]);
            lemma_percent_hex_snoc(t@.take(i as int), b);
            assert(t@.take(i as int).push(b) =~= t@.take(i + 1));
            assert(out@ =~= percent_hex(t@.take(i + 1)));
        }
        i = i + 1;
    }
    proof {
        assert(t@.take(t@.len() as int) =~= t@);
    }
    out
}

/// Percent-encoding one more byte appends its three characters.
pub proof fn lemma_percent_hex_snoc(bytes: Seq<u8>, b: u8)
    ensures
        percent_hex(bytes.push(b)) == percent_hex(bytes) + seq![
            '%',
            hex_char_of(b / 16),
            hex_char_of(b % 16),
        ],
    decreases bytes.len(),
{
    if bytes.len() == 0 {
        assert(bytes.push(b) =~= seq![b]);
        assert(seq![b].drop_first() =~= Seq::<u8>::empty());
        assert(seq![b][0] == b);
        assert(percent_hex(Seq::<u8>::empty()) == Seq::<char>::empty());
        assert(percent_hex(bytes.push(b)) =~= seq!['%', hex_char_of(b / 16), hex_char_of(b % 16)]);
        assert(percent_hex(bytes) + seq!['%', hex_char_of(b / 16), hex_char_of(b % 16)]
            =~= seq!['%', hex_char_of(b / 16), hex_char_of(b % 16)]);
    } else {
        assert(bytes.push(b)[0] == bytes[0]);
        assert(bytes.push(b).drop_first() =~= bytes.drop_first().push(b));
        lemma_percent_hex_snoc(bytes.drop_first(), b);
        assert(seq!['%', hex_char_of(bytes[0] / 16), hex_char_of(bytes[0] % 16)] + (percent_hex(
            bytes.drop_first(),
        ) + seq!['%', hex_char_of(b / 16), hex_char_of(b % 16)]) =~= (seq![
            '%',
            hex_char_of(bytes[0] / 16),
            hex_char_of(bytes[0] % 16),
        ] + percent_hex(bytes.drop_first())) + seq!['%', hex_char_of(b / 16), hex_char_of(b % 16)]);
    }
}

/// The bencode dictionary that an `Info` encodes to: its fields under
/// their BEP 3 keys, in a fixed entry order; canonical encoding sorts
/// the entries by key, wherever they stand here.
pub open spec fn spec_info_entries(si: SpecInfo) -> Seq<(Seq<u8>, SpecValue)> {
    let base = seq![
        (key_length(), SpecValue::Integer(si.length)),
        (key_name(), SpecValue::ByteString(encode_utf8(si.name))),
        (key_piece_length(), SpecValue::Integer(si.piece_length)),
        (key_pieces(), SpecValue::ByteString(flat_pieces(si.pieces))),
    ];
    match si.path {
        Some(p) => base.push((key_path(), spec_path_value(p))),
        None => base,
    }
}

/// The bencode term a `path` list encodes to.
pub open spec fn spec_path_value(p: Seq<Seq<Seq<char>>>) -> SpecValue {
    SpecValue::List(
        Seq::new(
            p.len(),
            |i: int|
                SpecValue::List(
                    Seq::new(
                        p[i].len(),
                        |j: int| SpecValue::ByteString(encode_utf8(p[i][j])),
                    ),
                ),
        ),
    )
}

/// The bencode term an `Info` encodes to.
pub open spec fn spec_info_value(si: SpecInfo) -> SpecValue {
    SpecValue::Dictionary(spec_info_entries(si))
}

/// The swarm identifier of an `info` dictionary: the SHA-1 digest of its
/// canonical bencoding.
pub open spec fn info_hash(si: SpecInfo) -> Seq<u8> {
    sha1_of(spec_encode(spec_info_value(si)))
}

/// Build the bencode term of one `path` list.
#[verifier::loop_isolation(false)]
fn path_to_value(p: &Vec<Vec<String>>) -> (r: BencodeValue)
    ensures
        r@ == spec_path_value(paths_view(p@)),
{
    let ghost pv = paths_view(p@);
    let mut items: Vec<BencodeValue> = Vec::new();
    let mut i: usize = 0;
    while i < p.len()
        invariant
            0 <= i <= p@.len(),
            items@.len() == i,
            forall|t: int| 0 <= t < i ==> #[trigger] items@[t].view() == SpecValue::List(
                Seq::new(pv[t].len(), |j: int| SpecValue::ByteString(encode_utf8(pv[t][j]))),
            ),
        decreases p@.len() - i,
    {
        let segs = &p[i];
        let mut inner: Vec<BencodeValue> = Vec::new();
        let mut j: usize = 0;
        while j < segs.len()
            invariant
                0 <= j <= segs@.len(),
                inner@.len() == j,
                forall|t: int| 0 <= t < j ==> #[trigger] inner@[t].view()
                    == SpecValue::ByteString(encode_utf8(segs@[t]@)),
            decreases segs@.len() - j,
        {
            let bytes = vstd::slice::slice_to_vec(segs[j].as_str().as_bytes());
            inner.push(BencodeValue::ByteString(bytes));
            j = j + 1;
        }
        proof {
            lemma_view_items(inner@);
            assert(view_items(inner@) =~= Seq::new(
                pv[i as int].len(),
                |j: int| SpecValue::ByteString(encode_utf8(pv[i as int][j])),
            ));
        }
        items.push(BencodeValue::List(inner));
        i = i + 1;
    }
    proof {
        lemma_view_items(items@);
        assert(view_items(items@) =~= (match spec_path_value(pv) {
            SpecValue::List(xs) => xs,
            _ => Seq::empty(),
        }));
    }
    BencodeValue::List(items)
}

/// Build the bencode term of an `Info`, entries as `spec_info_entries`
/// lists them.
pub fn info_to_value(info: &Info) -> (r: BencodeValue)
    requires
        info@.length <= i64::MAX,
        info@.piece_length <= i64::MAX,
    ensures
        r@ == spec_info_value(info@),
{
    let mut entries: Vec<(Vec<u8>, BencodeValue)> = Vec::new();
    let mut lk: Vec<u8> = Vec::new();
    lk.push(108);
    lk.push(101);
    lk.push(110);
    lk.push(103);
    lk.push(116);
    lk.push(104);
    proof {
        assert(lk@ =~= key_length());
    }
    entries.push((lk, BencodeValue::Integer(info.length as i64)));
    let mut nk: Vec<u8> = Vec::new();
    nk.push(110);
    nk.push(97);
    nk.push(109);
    nk.push(101);
    proof {
        assert(nk@ =~= key_name());
    }
    let name_bytes = vstd::slice::slice_to_vec(info.name.as_str().as_bytes());
    entries.push((nk, BencodeValue::ByteString(name_bytes)));
    let mut plk: Vec<u8> = Vec::new();
    plk.push(112);
    plk.push(105);
    plk.push(101);
    plk.push(99);
    plk.push(101);
    plk.push(32);
    plk.push(108);
    plk.push(101);
    plk.push(110);
    plk.push(103);
    plk.push(116);
    plk.push(104);
    proof {
        assert(plk@ =~= key_piece_length());
    }
    entries.push((plk, BencodeValue::Integer(info.piece_length as i64)));
    let mut psk: Vec<u8> = Vec::new();
    psk.push(112);
    psk.push(105);
    psk.push(101);
    psk.push(99);
    psk.push(101);
    psk.push(115);
    proof {
        assert(psk@ =~= key_pieces());
    }
    entries.push((psk, BencodeValue::ByteString(info.pieces.to_bytes())));
    if let Some(p) = &info.path {
        let mut pk: Vec<u8> = Vec::new();
        pk.push(112);
        pk.push(97);
        pk.push(116);
        pk.push(104);
        proof {
            assert(pk@ =~= key_path());
        }
        entries.push((pk, path_to_value(p)));
    }
    let ghost es = entries@;
    let r = BencodeValue::Dictionary(entries);
    proof {
        lemma_view_pairs(es);
        assert(view_pairs(es) =~= spec_info_entries(info@));
    }
    r
}

/// Copy a vector of strings.
fn clone_strings(v: &Vec<String>) -> (r: Vec<String>)
    ensures
        r@.len() == v@.len(),
        forall|i: int| 0 <= i < v@.len() ==> #[trigger] r@[i]@ == v@[i]@,
{
    let mut out: Vec<String> = Vec::new();
    let mut i: usize = 0;
    while i < v.len()
        invariant
            0 <= i <= v@.len(),
            out@.len() == i,
            forall|t: int| 0 <= t < i ==> #[trigger] out@[t]@ == v@[t]@,
        decreases v@.len() - i,
    {
        out.push(v[i].as_str().to_owned());
        i = i + 1;
    }
    out
}

impl Torrent {
    /// Parse a bencoded torrent file. Succeeds exactly when the bytes
    /// hold one bencode term, nothing follows it, and the term carries
    /// the required fields in the required kinds.
    pub fn from_bytes(bytes: &[u8]) -> (r: Result<Torrent, MetainfoError>)
        ensures
            match spec_decode(bytes@) {
                Some(p) => {
                    if p.1.len() == 0 {
                        match spec_parse_torrent(p.0) {
                            Some(st) => r is Ok && r->Ok_0@ == st,
                            None => r is Err,
                        }
                    } else {
                        r == Err::<Torrent, MetainfoError>(MetainfoError::TrailingBytes)
                    }
                },
                None => r matches Err(MetainfoError::Bencode(_)),
            },
            // Parsed sizes come from bencode integers, so a parsed torrent
            // always meets `get_sha1`'s bounds.
            r is Ok ==> r->Ok_0@.info.length <= i64::MAX && r->Ok_0@.info.piece_length
                <= i64::MAX,
    {
        let (value, consumed) = match crate::bencode::decode_bencoded_value(bytes) {
            Ok(p) => p,
            Err(e) => {
                return Err(MetainfoError::Bencode(e));
            },
        };
        if consumed < bytes.len() {
            proof {
                assert(bytes@.skip(consumed as int).len() > 0);
            }
            return Err(MetainfoError::TrailingBytes);
        }
        proof {
            assert(bytes@.skip(consumed as int).len() == 0);
        }
        let entries = match &value {
            BencodeValue::Dictionary(entries) => entries,
            _ => {
                return Err(MetainfoError::Structure);
            },
        };
        let ghost ps = view_pairs(entries@);
        let mut ak: Vec<u8> = Vec::new();
        ak.push(97);
        ak.push(110);
        ak.push(110);
        ak.push(111);
        ak.push(117);
        ak.push(110);
        ak.push(99);
        ak.push(101);
        proof {
            assert(ak@ =~= key_announce());
        }
        let announce_bytes = match crate::info::dict_find(entries, &ak) {
            Some(BencodeValue::ByteString(ab)) => ab,
            Some(_) => {
                proof {
                    match dict_get(ps, key_announce()) {
                        Some(SpecValue::ByteString(_)) => {
                            assert(false);
                        },
                        _ => {},
                    }
                }
                return Err(MetainfoError::Structure);
            },
            None => {
                return Err(MetainfoError::Structure);
            },
        };
        let announce = match crate::text::string_from_utf8(clone_bytes(announce_bytes)) {
            Some(s) => s,
            None => {
                return Err(MetainfoError::Utf8);
            },
        };
        let mut ik: Vec<u8> = Vec::new();
        ik.push(105);
        ik.push(110);
        ik.push(102);
        ik.push(111);
        proof {
            assert(ik@ =~= key_info());
        }
        let info_value = match crate::info::dict_find(entries, &ik) {
            Some(iv) => iv,
            None => {
                return Err(MetainfoError::Structure);
            },
        };
        let info = match Info::from_value(info_value) {
            Ok(i) => i,
            Err(e) => {
                return Err(e);
            },
        };
        Ok(Torrent { announce, info })
    }

    /// The torrent's `info` data, as an owned copy with the same model.
    pub fn get_info(&self) -> (r: Info)
        ensures
            r@ == self.info@,
    {
        let name = self.info.name.as_str().to_owned();
        let pieces = crate::info::Pieces(
            vstd::slice::slice_to_vec(self.info.pieces.0.as_slice()),
        );
        let path = match &self.info.path {
            Some(p) => {
                let mut out: Vec<Vec<String>> = Vec::new();
                let mut i: usize = 0;
                while i < p.len()
                    invariant
                        0 <= i <= p@.len(),
                        out@.len() == i,
                        forall|t: int| 0 <= t < i ==> #[trigger] strings_view(out@[t]@)
                            == strings_view(p@[t]@),
                    decreases p@.len() - i,
                {
                    let cloned = clone_strings(&p[i]);
                    proof {
                        assert(strings_view(cloned@) =~= strings_view(p@[i as int]@));
                    }
                    out.push(cloned);
                    i = i + 1;
                }
                proof {
                    assert(paths_view(out@) =~= paths_view(p@));
                }
                Some(out)
            },
            None => None,
        };
        let r = Info {
            name,
            piece_length: self.info.piece_length,
            pieces,
            length: self.info.length,
            path,
        };
        proof {
            assert(r@.pieces =~= self.info@.pieces);
        }
        r
    }

    /// The torrent's swarm identifier: the SHA-1 digest of the canonical
    /// bencoding of its `info` dictionary. Pure in the `info` content:
    /// the same fields always hash to the same 20 bytes.
    pub fn get_sha1(&self) -> (r: [u8; 20])
        requires
            self.info@.length <= i64::MAX,
            self.info@.piece_length <= i64::MAX,
        ensures
            r@ == info_hash(self.info@),
    {
        let value = info_to_value(&self.info);
        let encoded = crate::bencode::encode_bencoded_value(&value);
        sha1_digest(encoded.as_slice())
    }
}

} // verus!

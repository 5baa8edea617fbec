//! The fixed 68-byte peer handshake: build, serialize, parse, and
//! validate a reply against the expected info-hash.

use vstd::prelude::*;

verus! {

/// Why a handshake attempt failed.
#[derive(Clone, Copy, Debug, PartialEq, Eq, Structural)]
pub enum HandshakeError {
    /// The stream could not carry the full 68 bytes either way.
    Io,
    /// The reply is not 68 bytes, or its length byte is not 19.
    BadLength,
    /// The reply's protocol name is not `BitTorrent protocol`.
    ProtocolMismatch,
    /// The reply speaks of a different torrent than expected.
    InfoHashMismatch,
}

/// The 19 bytes of `BitTorrent protocol`.
pub open spec fn protocol_bytes() -> Seq<u8> {
    seq![
        66u8,
        105u8,
        116u8,
        84u8,
        111u8,
        114u8,
        114u8,
        101u8,
        110u8,
        116u8,
        32u8,
        112u8,
        114u8,
        111u8,
        116u8,
        111u8,
        99u8,
        111u8,
        108u8,
    ]
}

/// The initial peer-wire exchange, 68 bytes on the wire: a length byte of
/// 19, the protocol name, 8 reserved bytes, the torrent's info-hash and
/// the sender's peer id.
#[derive(Clone, Copy, Debug, PartialEq, Eq)]
pub struct Handshake {
    /// Length of the protocol name; always 19.
    pub length: u8,
    /// The protocol name, `BitTorrent protocol`.
    pub bittorrent: [u8; 19],
    /// Reserved extension flags; all zero here.
    pub reserved: [u8; 8],
    /// The info-hash of the torrent this connection is about.
    pub info_hash: [u8; 20],
    /// The sender's peer id.
    pub peer_id: [u8; 20],
}

/// The wire form of a handshake: its five fields in order, 68 bytes.
pub open spec fn spec_handshake_bytes(h: Handshake) -> Seq<u8> {
    seq![h.length] + h.bittorrent@ + h.reserved@ + h.info_hash@ + h.peer_id@
}

impl Handshake {
    /// A handshake is well formed when its fixed fields hold their
    /// protocol constants.
    pub open spec fn wf(&self) -> bool {
        self.length == 19 && self.bittorrent@ == protocol_bytes() && (forall|i: int|
            0 <= i < 8 ==> self.reserved@[i] == 0)
    }

    /// Build the local handshake for one torrent and one local peer id.
    pub fn new(info_hash: [u8; 20], peer_id: [u8; 20]) -> (r: Handshake)
        ensures
            r.wf(),
            r.info_hash == info_hash,
            r.peer_id == peer_id,
    {
        let bittorrent: [u8; 19] = [
            66u8, 105u8, 116u8, 84u8, 111u8, 114u8, 114u8, 101u8, 110u8, 116u8, 32u8, 112u8,
            114u8, 111u8, 116u8, 111u8, 99u8, 111u8, 108u8,
        ];
        let r = Handshake { length: 19, bittorrent, reserved: [0u8; 8], info_hash, peer_id };
        proof {
            assert(r.bittorrent@ =~= protocol_bytes());
        }
        r
    }

    /// The 68 wire bytes of this handshake.
    pub fn to_bytes(&self) -> (r: Vec<u8>)
        ensures
            r@ == spec_handshake_bytes(*self),
            r@.len() == 68,
    {
        let mut out: Vec<u8> = Vec::new();
        out.push(self.length);
        let mut i: usize = 0;
        while i < 19
            invariant
                0 <= i <= 19,
                out@ == seq![self.length] + self.bittorrent@.take(i as int),
            decreases 19 - i,
        {
            out.push(self.bittorrent[i]);
            proof {
                assert(seq![self.length] + self.bittorrent@.take(i as int) + seq![
                    self.bittorrent@[i as int],
                ] =~= seq![self.length] + self.bittorrent@.take(i + 1));
            }
            i = i + 1;
        }
        proof {
            assert(self.bittorrent@.take(19) =~= self.bittorrent@);
        }
        let mut j: usize = 0;
        while j < 8
            invariant
                0 <= j <= 8,
                out@ == seq![self.length] + self.bittorrent@ + self.reserved@.take(j as int),
            decreases 8 - j,
        {
            out.push(self.reserved[j]);
            proof {
                assert(seq![self.length] + self.bittorrent@ + self.reserved@.take(j as int) + seq![
                    self.reserved@[j as int],
                ] =~= seq![self.length] + self.bittorrent@ + self.reserved@.take(j + 1));
            }
            j = j + 1;
        }
        proof {
            assert(self.reserved@.take(8) =~= self.reserved@);
        }
        let mut k: usize = 0;
        while k < 20
            invariant
                0 <= k <= 20,
                out@ == seq![self.length] + self.bittorrent@ + self.reserved@
                    + self.info_hash@.take(k as int),
            decreases 20 - k,
        {
            out.push(self.info_hash[k]);
            proof {
                assert(seq![self.length] + self.bittorrent@ + self.reserved@
                    + self.info_hash@.take(k as int) + seq![self.info_hash@[k as int]]
                    =~= seq![self.length] + self.bittorrent@ + self.reserved@
                    + self.info_hash@.take(k + 1));
            }
            k = k + 1;
        }
        proof {
            assert(self.info_hash@.take(20) =~= self.info_hash@);
        }
        let mut m: usize = 0;
        while m < 20
            invariant
                0 <= m <= 20,
                out@ == seq![self.length] + self.bittorrent@ + self.reserved@ + self.info_hash@
                    + self.peer_id@.take(m as int),
            decreases 20 - m,
        {
            out.push(self.peer_id[m]);
            proof {
                assert(seq![self.length] + self.bittorrent@ + self.reserved@ + self.info_hash@
                    + self.peer_id@.take(m as int) + seq![self.peer_id@[m as int]]
                    =~= seq![self.length] + self.bittorrent@ + self.reserved@ + self.info_hash@
                    + self.peer_id@.take(m + 1));
            }
            m = m + 1;
        }
        proof {
            assert(self.peer_id@.take(20) =~= self.peer_id@);
        }
        out
    }

    /// Read a handshake back from 68 wire bytes, checking the length byte
    /// and the protocol name; the reserved bytes, info-hash and peer id
    /// are taken as they stand.
    pub fn from_bytes(b: &[u8]) -> (r: Result<Handshake, HandshakeError>)
        ensures
            r is Ok <==> b@.len() == 68 && b@[0] == 19 && b@.subrange(1, 20) == protocol_bytes(),
            r is Ok ==> spec_handshake_bytes(r->Ok_0) == b@,
            b@.len() != 68 ==> r == Err::<Handshake, HandshakeError>(HandshakeError::BadLength),
            b@.len() == 68 && !(b@[0] == 19 && b@.subrange(1, 20) == protocol_bytes()) ==> r
                == Err::<Handshake, HandshakeError>(HandshakeError::ProtocolMismatch),
    {
        if b.len() != 68 {
            return Err(HandshakeError::BadLength);
        }
        if b[0] != 19 {
            proof {
                assert(b@[0] != 19);
            }
            return Err(HandshakeError::ProtocolMismatch);
        }
        let mut bittorrent: [u8; 19] = [0u8; 19];
        let mut i: usize = 0;
        while i < 19
            invariant
                0 <= i <= 19,
                b@.len() == 68,
                forall|t: int| 0 <= t < i ==> #[trigger] bittorrent@[t] == b@[1 + t],
            decreases 19 - i,
        {
            bittorrent[i] = b[1 + i];
            i = i + 1;
        }
        proof {
            assert(bittorrent@ =~= b@.subrange(1, 20));
        }
        let expected = Handshake::new([0u8; 20], [0u8; 20]);
        let mut t: usize = 0;
        while t < 19
            invariant
                0 <= t <= 19,
                b@.len() == 68,
                bittorrent@ == b@.subrange(1, 20),
                expected.bittorrent@ == protocol_bytes(),
                forall|u: int| 0 <= u < t ==> #[trigger] bittorrent@[u]
                    == expected.bittorrent@[u],
            decreases 19 - t,
        {
            if bittorrent[t] != expected.bittorrent[t] {
                proof {
                    assert(b@.subrange(1, 20)[t as int] != protocol_bytes()[t as int]);
                }
                return Err(HandshakeError::ProtocolMismatch);
            }
            t = t + 1;
        }
        proof {
            assert(bittorrent@ =~= protocol_bytes());
        }
        let mut reserved: [u8; 8] = [0u8; 8];
        let mut j: usize = 0;
        while j < 8
            invariant
                0 <= j <= 8,
                b@.len() == 68,
                forall|t: int| 0 <= t < j ==> #[trigger] reserved@[t] == b@[20 + t],
            decreases 8 - j,
        {
            reserved[j] = b[20 + j];
            j = j + 1;
        }
        let mut info_hash: [u8; 20] = [0u8; 20];
        let mut k: usize = 0;
        while k < 20
            invariant
                0 <= k <= 20,
                b@.len() == 68,
                forall|t: int| 0 <= t < k ==> #[trigger] info_hash@[t] == b@[28 + t],
            decreases 20 - k,
        {
            info_hash[k] = b[28 + k];
            k = k + 1;
        }
        let mut peer_id: [u8; 20] = [0u8; 20];
        let mut m: usize = 0;
        while m < 20
            invariant
                0 <= m <= 20,
                b@.len() == 68,
                forall|t: int| 0 <= t < m ==> #[trigger] peer_id@[t] == b@[48 + t],
            decreases 20 - m,
        {
            peer_id[m] = b[48 + m];
            m = m + 1;
        }
        let h = Handshake { length: 19, bittorrent, reserved, info_hash, peer_id };
        proof {
            assert(spec_handshake_bytes(h) =~= b@);
        }
        Ok(h)
    }

    /// Validate a peer's 68-byte reply against the expected info-hash and
    /// extract the remote peer id. Accepts exactly the replies whose
    /// length byte, protocol name and info-hash all match; anything else
    /// is rejected outright.
    pub fn validate_reply(reply: &[u8], expected_hash: &[u8; 20]) -> (r: Result<
        [u8; 20],
        HandshakeError,
    >)
        ensures
            r is Ok <==> reply@.len() == 68 && reply@[0] == 19 && reply@.subrange(1, 20)
                == protocol_bytes() && reply@.subrange(28, 48) == expected_hash@,
            r is Ok ==> r->Ok_0@ == reply@.subrange(48, 68),
            reply@.len() == 68 && reply@[0] == 19 && reply@.subrange(1, 20) == protocol_bytes()
                && reply@.subrange(28, 48) != expected_hash@ ==> r == Err::<
                [u8; 20],
                HandshakeError,
            >(HandshakeError::InfoHashMismatch),
    {
        let h = match Handshake::from_bytes(reply) {
            Ok(h) => h,
            Err(e) => {
                return Err(e);
            },
        };
        proof {
            assert(h.info_hash@ =~= reply@.subrange(28, 48));
            assert(h.peer_id@ =~= reply@.subrange(48, 68));
        }
        let mut k: usize = 0;
        while k < 20
            invariant
                0 <= k <= 20,
                h.info_hash@ == reply@.subrange(28, 48),
                h.peer_id@ == reply@.subrange(48, 68),
                reply@.len() == 68,
                forall|t: int| 0 <= t < k ==> #[trigger] h.info_hash@[t] == expected_hash@[t],
            decreases 20 - k,
        {
            if h.info_hash[k] != expected_hash[k] {
                proof {
                    assert(reply@.subrange(28, 48)[k as int] != expected_hash@[k as int]);
                }
                return Err(HandshakeError::InfoHashMismatch);
            }
            k = k + 1;
        }
        proof {
            assert(h.info_hash@ =~= expected_hash@);
        }
        Ok(h.peer_id)
    }
}

/// Round trip: the wire bytes of a well-formed handshake parse back
/// successfully — they are 68 bytes, their length byte is 19, their
/// protocol field is the protocol name — and the info-hash and peer-id
/// fields recovered from them are exactly the ones the handshake was
/// built with.
pub proof fn lemma_handshake_round_trip(h: Handshake)
    requires
        h.wf(),
    ensures
        spec_handshake_bytes(h).len() == 68,
        spec_handshake_bytes(h)[0] == 19,
        spec_handshake_bytes(h).subrange(1, 20) == protocol_bytes(),
        spec_handshake_bytes(h).subrange(28, 48) == h.info_hash@,
        spec_handshake_bytes(h).subrange(48, 68) == h.peer_id@,
{
    let b = spec_handshake_bytes(h);
    assert(b.subrange(1, 20) =~= h.bittorrent@);
    assert(b.subrange(28, 48) =~= h.info_hash@);
    assert(b.subrange(48, 68) =~= h.peer_id@);
}

} // verus!

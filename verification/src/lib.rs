//! The metainfo and peer-handshake layer of a BitTorrent client: a
//! bencode codec with a proven canonical-encoding round trip, the typed
//! torrent metadata model, the SHA-1 info-hash that identifies a torrent
//! swarm-wide, the announce URL and response decoding of the HTTP tracker
//! exchange, and the fixed 68-byte peer handshake.

use vstd::prelude::*;

pub mod bencode;
pub mod handshake;
pub mod info;
pub mod text;
pub mod torrent;
pub mod tracker;

pub use bencode::{BencodeValue, DecodeError};
pub use handshake::{Handshake, HandshakeError};
pub use info::{Info, MetainfoError, PeerAddr, Peers, Pieces};
pub use torrent::Torrent;
pub use tracker::{TrackerError, TrackerResponse};

verus! {

} // verus!

//! A BitTorrent client library: bencode parsing and encoding, the peer wire
//! protocol's messages and handshake, torrent metainfo extraction and the
//! decisions of a downloading peer.

pub mod bencode;
pub mod decode;
pub mod text;
pub mod torrent;
pub mod util;

use vstd::prelude::*;

verus! {

} // verus!

//! The BitTorrent side of the client: wire messages, metainfo, the tracker's
//! response, a peer's decisions and the local progress.

pub mod message;
pub mod meta;
pub mod peer;
pub mod protocol;
pub mod response;
pub mod storage;

use crate::text::{ascii_chars, decimal, decimal_text, lossy_text, percent_hex, utf8_lossy};
use crate::util::percent_hex_string;
use protocol::State;
use vstd::prelude::*;
use vstd::string::StringExecFns;

verus! {

/// The text `key=value` of one query parameter.
fn param(key: &str, value: &str) -> (r: String)
    ensures
        r@ == key@ + "="@ + value@,
{
    let mut r = key.to_string();
    r.append("=");
    r.append(value);
    r
}

/// The announce URL that asks the tracker at `announce` for peers: the
/// parameters info_hash (percent-encoded), peer_id (as text), port 6881,
/// uploaded, downloaded and left (in decimal) and compact=1, joined by `&`
/// behind a `?`.
pub open spec fn query_text(
    peer_id: Seq<u8>,
    info_hash: Seq<u8>,
    announce: Seq<char>,
    uploaded: usize,
    downloaded: usize,
    left: usize,
) -> Seq<char> {
    announce + "?"@ + "info_hash"@ + "="@ + ascii_chars(percent_hex(info_hash)) + "&"@
        + "peer_id"@ + "="@ + utf8_lossy(peer_id) + "&"@ + "port"@ + "="@ + "6881"@ + "&"@
        + "uploaded"@ + "="@ + ascii_chars(decimal(uploaded as nat)) + "&"@ + "downloaded"@
        + "="@ + ascii_chars(decimal(downloaded as nat)) + "&"@ + "left"@ + "="@
        + ascii_chars(decimal(left as nat)) + "&"@ + "compact"@ + "="@ + "1"@
}

/// The URL of the announce to the tracker at `announce`, for the torrent
/// `info_hash`, from the peer `peer_id` in the state `state`.
pub fn query(peer_id: &[u8; 20], info_hash: &[u8; 20], announce: &String, state: &State) -> (r:
    String)
    ensures
        r@ == query_text(
            peer_id@,
            info_hash@,
            announce@,
            state.uploaded,
            state.downloaded,
            state.left,
        ),
{
    let mut r = announce.clone();
    r.append("?");
    let p = param("info_hash", percent_hex_string(info_hash.as_slice()).as_str());
    r.append(p.as_str());
    r.append("&");
    let p = param("peer_id", lossy_text(peer_id.as_slice()).as_str());
    r.append(p.as_str());
    r.append("&");
    let p = param("port", "6881");
    r.append(p.as_str());
    r.append("&");
    let p = param("uploaded", decimal_text(state.uploaded as u64).as_str());
    r.append(p.as_str());
    r.append("&");
    let p = param("downloaded", decimal_text(state.downloaded as u64).as_str());
    r.append(p.as_str());
    r.append("&");
    let p = param("left", decimal_text(state.left as u64).as_str());
    r.append(p.as_str());
    r.append("&");
    let p = param("compact", "1");
    r.append(p.as_str());
    r
}

} // verus!

//! A tracker's answer to an announce: how many peers there are and where
//! some of them are.

use crate::bencode::{lemma_item_value, pairs_values, Item, Value};
use crate::text::{
    ascii_chars, decimal, lemma_decimal, push_decimal, string_from_ascii,
};
use crate::util::bencode::{
    dictionary, integer_field, lemma_field_index, string_field, value_integer_field,
    value_string_field, FieldError,
};
use vstd::prelude::*;
use vstd::string::StringSliceAdditionalSpecFns;

verus! {

/// The tracker's response.
pub struct Response {
    pub complete: i64,
    pub incomplete: i64,
    pub peers: Vec<Peer>,
}

/// A peer's address in compact form: four bytes of IPv4 address and two of
/// port, most significant first.
#[derive(Clone, Copy)]
pub struct Peer(pub [u8; 6]);

/// What a [`Response`] holds, as plain values.
pub struct ResponseView {
    pub complete: i64,
    pub incomplete: i64,
    pub peers: Seq<Seq<u8>>,
}

impl View for Response {
    type V = ResponseView;

    open spec fn view(&self) -> ResponseView {
        ResponseView {
            complete: self.complete,
            incomplete: self.incomplete,
            peers: Seq::new(self.peers@.len(), |i: int| self.peers@[i].0@),
        }
    }
}

/// Why the tracker's response could not be read.
#[derive(Debug, PartialEq, Eq)]
pub enum Error {
    NotDictionary,
    Complete(FieldError),
    Incomplete(FieldError),
    Peers(FieldError),
}

/// The 6-byte peer addresses that `b` holds one after the other; bytes left
/// over after the last whole address are dropped.
pub open spec fn peer_addresses(b: Seq<u8>) -> Seq<Seq<u8>> {
    Seq::new(b.len() / 6, |i: int| b.subrange(6 * i, 6 * i + 6))
}

/// What reading the response from `v` gives: its fields, or the error of the
/// first field, in the order complete, incomplete, peers, that is missing or
/// of the wrong kind.
pub open spec fn spec_response(v: Value) -> Result<ResponseView, Error> {
    match v {
        Value::Dict(ps) => match value_integer_field(ps, "complete".spec_bytes()) {
            Err(e) => Err(Error::Complete(e)),
            Ok(complete) => match value_integer_field(ps, "incomplete".spec_bytes()) {
                Err(e) => Err(Error::Incomplete(e)),
                Ok(incomplete) => match value_string_field(ps, "peers".spec_bytes()) {
                    Err(e) => Err(Error::Peers(e)),
                    Ok(peers) => Ok(
                        ResponseView { complete, incomplete, peers: peer_addresses(peers) },
                    ),
                },
            },
        },
        _ => Err(Error::NotDictionary),
    }
}

/// Cuts `b` into 6-byte peer addresses.
fn peers(b: &Vec<u8>) -> (r: Vec<Peer>)
    ensures
        r@.len() == b@.len() / 6,
        forall|i: int| 0 <= i < r@.len() ==> (#[trigger] r@[i]).0@ == b@.subrange(6 * i, 6 * i + 6),
{
    let n = b.len() / 6;
    let mut out: Vec<Peer> = Vec::new();
    let mut k: usize = 0;
    while k < n
        invariant
            n == b@.len() / 6,
            k <= n,
            out@.len() == k,
            forall|i: int| 0 <= i < k ==> (#[trigger] out@[i]).0@ == b@.subrange(6 * i, 6 * i + 6),
        decreases n - k,
    {
        assert(6 * k + 6 <= b@.len()) by (nonlinear_arith)
            requires
                k < n,
                n == b@.len() / 6,
        ;
        assert(b@.len() == b.len());
        let base = 6 * k;
        let mut a = [0u8; 6];
        let mut j: usize = 0;
        while j < 6
            invariant
                base == 6 * k,
                base + 6 <= b@.len(),
                b@.len() == b.len(),
                j <= 6,
                forall|t: int| 0 <= t < j ==> a@[t] == b@[base + t],
            decreases 6 - j,
        {
            a[j] = b[base + j];
            j = j + 1;
        }
        proof {
            assert(a@ =~= b@.subrange(6 * k, 6 * k + 6));
        }
        out.push(Peer(a));
        k = k + 1;
    }
    out
}

/// Reads the tracker's response.
pub fn extract(item: &Item) -> (r: Result<Response, Error>)
    ensures
        match spec_response(item@) {
            Ok(v) => r matches Ok(response) && response@ == v,
            Err(e) => r == Err::<Response, Error>(e),
        },
{
    let d = match dictionary(item) {
        Some(d) => d,
        None => return Err(Error::NotDictionary),
    };
    proof {
        lemma_item_value(*item);
        lemma_field_index("complete".spec_bytes(), *d);
        lemma_field_index("incomplete".spec_bytes(), *d);
        lemma_field_index("peers".spec_bytes(), *d);
    }
    let complete = match integer_field("complete", d) {
        Ok(x) => x,
        Err(e) => return Err(Error::Complete(e)),
    };
    let incomplete = match integer_field("incomplete", d) {
        Ok(x) => x,
        Err(e) => return Err(Error::Incomplete(e)),
    };
    let peers = match string_field("peers", d) {
        Ok(b) => peers(&b.bytes),
        Err(e) => return Err(Error::Peers(e)),
    };
    let response = Response { complete, incomplete, peers };
    proof {
        assert(response@.peers =~= peer_addresses(
            value_string_field(pairs_values(d.items@), "peers".spec_bytes())->Ok_0,
        ));
    }
    Ok(response)
}

/// How a peer's address is shown: the four address bytes in decimal with
/// dots between them, a colon, and the port in decimal.
pub open spec fn peer_text(b: Seq<u8>) -> Seq<u8> {
    decimal(b[0] as nat) + seq![46u8] + decimal(b[1] as nat) + seq![46u8] + decimal(b[2] as nat)
        + seq![46u8] + decimal(b[3] as nat) + seq![58u8] + decimal((b[4] * 256 + b[5]) as nat)
}

impl Peer {
    /// The peer's address as `a.b.c.d:port`.
    pub fn debug_string(&self) -> (s: String)
        ensures
            s@ == ascii_chars(peer_text(self.0@)),
    {
        let b = self.0;
        let mut out: Vec<u8> = Vec::new();
        push_decimal(&mut out, b[0] as u64);
        out.push(46);
        push_decimal(&mut out, b[1] as u64);
        out.push(46);
        push_decimal(&mut out, b[2] as u64);
        out.push(46);
        push_decimal(&mut out, b[3] as u64);
        out.push(58);
        let port: u64 = b[4] as u64 * 256 + b[5] as u64;
        push_decimal(&mut out, port);
        proof {
            assert(out@ =~= peer_text(b@));
            lemma_decimal(b[0] as nat);
            lemma_decimal(b[1] as nat);
            lemma_decimal(b[2] as nat);
            lemma_decimal(b[3] as nat);
            lemma_decimal(port as nat);
            assert forall|i: int| 0 <= i < out@.len() implies #[trigger] out@[i] < 128 by {
                assert(out@[i] == peer_text(b@)[i]);
            }
        }
        string_from_ascii(out.as_slice())
    }
}

} // verus!

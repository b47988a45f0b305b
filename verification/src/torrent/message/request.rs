//! A request for a block, and the cancel of one: its location and length.

use super::location::{self, lemma_location_bytes, location_bytes, location_text, spec_location, Location};
use crate::text::{ascii_chars, decimal, decimal_text};
use vstd::string::StringExecFns;
use crate::decode::{be_bytes, be_u32, push_be_u32};
use vstd::prelude::*;

verus! {

/// A request for `length` bytes at `location`.
#[derive(Debug, Clone, Copy, PartialEq, Eq, Structural)]
pub struct Request {
    pub location: Location,
    pub length: u32,
}

/// Why a request could not be read.
#[derive(Debug, Clone, Copy, PartialEq, Eq, Structural)]
pub enum Error {
    Location(location::Error),
    NoLength,
}

/// What reading a request from `s` gives: a location, then a big-endian
/// length; anything after that is ignored.
pub open spec fn spec_request(s: Seq<u8>) -> Result<Request, Error> {
    match spec_location(s) {
        Err(e) => Err(Error::Location(e)),
        Ok(l) => if s.len() < 12 {
            Err(Error::NoLength)
        } else {
            Ok(Request { location: l, length: be_u32(s.skip(8)) as u32 })
        },
    }
}

/// The bytes of a request.
pub open spec fn request_bytes(r: Request) -> Seq<u8> {
    location_bytes(r.location) + be_bytes(r.length)
}

/// Reads a request from `input`.
pub fn try_parse(input: &[u8]) -> (r: Result<Request, Error>)
    ensures
        r == spec_request(input@),
{
    let (input2, location) = match location::try_parse(input) {
        Ok(x) => x,
        Err(e) => return Err(Error::Location(e)),
    };
    let (_, length) = match crate::decode::u32(input2) {
        Some(x) => x,
        None => return Err(Error::NoLength),
    };
    Ok(Request { location, length })
}

impl Request {
    /// A request for the standard block length of 16 KiB at `location`.
    pub fn _new(location: Location) -> (r: Request)
        ensures
            r == (Request { location, length: 16384 }),
    {
        Request { location, length: 16 * 1024 }
    }

    /// The bytes of this request.
    pub fn encode(&self) -> (r: Vec<u8>)
        ensures
            r@ == request_bytes(*self),
    {
        let mut out = self.location.encode();
        push_be_u32(&mut out, self.length);
        out
    }
}

/// The bytes of a request are read back as it.
pub proof fn lemma_request_bytes(r: Request, rest: Seq<u8>)
    ensures
        spec_request(request_bytes(r) + rest) == Ok::<Request, Error>(r),
        (request_bytes(r) + rest).len() == 12 + rest.len(),
{
    let s = request_bytes(r) + rest;
    lemma_location_bytes(r.location, be_bytes(r.length) + rest);
    assert(s =~= location_bytes(r.location) + (be_bytes(r.length) + rest));
    crate::decode::lemma_be_bytes(r.length, rest);
}

/// How a request is shown: its location, a space and its length in decimal.
pub open spec fn request_text(r: Request) -> Seq<char> {
    location_text(r.location) + " "@ + ascii_chars(decimal(r.length as nat))
}

impl Request {
    /// The request as `index begin length`.
    pub fn debug_string(&self) -> (s: String)
        ensures
            s@ == request_text(*self),
    {
        let mut s = self.location.debug_string();
        s.append(" ");
        s.append(decimal_text(self.length as u64).as_str());
        s
    }
}

} // verus!

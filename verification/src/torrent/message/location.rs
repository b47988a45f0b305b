//! Where a block lies: the index of its piece and its offset in the piece.

use crate::decode::{be_bytes, be_u32, push_be_u32};
use crate::text::{ascii_chars, decimal, decimal_text};
use vstd::string::StringExecFns;
use vstd::prelude::*;

verus! {

/// A block's piece index and offset.
#[derive(Debug, Clone, Copy, PartialEq, Eq, Structural)]
pub struct Location {
    pub index: u32,
    pub begin: u32,
}

/// Why a location could not be read.
#[derive(Debug, Clone, Copy, PartialEq, Eq, Structural)]
pub enum Error {
    NoIndex,
    NoBegin,
}

/// What reading a location from `s` gives: two big-endian `u32`s.
pub open spec fn spec_location(s: Seq<u8>) -> Result<Location, Error> {
    if s.len() < 4 {
        Err(Error::NoIndex)
    } else if s.len() < 8 {
        Err(Error::NoBegin)
    } else {
        Ok(Location { index: be_u32(s) as u32, begin: be_u32(s.skip(4)) as u32 })
    }
}

/// The bytes of a location.
pub open spec fn location_bytes(l: Location) -> Seq<u8> {
    be_bytes(l.index) + be_bytes(l.begin)
}

/// Reads a location from the front of `input`.
pub fn try_parse(input: &[u8]) -> (r: Result<(&[u8], Location), Error>)
    ensures
        match spec_location(input@) {
            Ok(l) => r matches Ok((rest, m)) && m == l && rest@ == input@.skip(8),
            Err(e) => r == Err::<(&[u8], Location), Error>(e),
        },
{
    let (input2, index) = match crate::decode::u32(input) {
        Some(x) => x,
        None => return Err(Error::NoIndex),
    };
    let (input3, begin) = match crate::decode::u32(input2) {
        Some(x) => x,
        None => return Err(Error::NoBegin),
    };
    proof {
        assert(input@.skip(4).skip(4) =~= input@.skip(8));
    }
    Ok((input3, Location { index, begin }))
}

impl Location {
    /// The bytes of this location.
    pub fn encode(&self) -> (r: Vec<u8>)
        ensures
            r@ == location_bytes(*self),
    {
        let mut out: Vec<u8> = Vec::new();
        push_be_u32(&mut out, self.index);
        push_be_u32(&mut out, self.begin);
        proof {
            assert(out@ =~= location_bytes(*self));
        }
        out
    }
}

/// The bytes of a location, whatever follows them, are read back as it.
pub proof fn lemma_location_bytes(l: Location, rest: Seq<u8>)
    ensures
        spec_location(location_bytes(l) + rest) == Ok::<Location, Error>(l),
        (location_bytes(l) + rest).len() == 8 + rest.len(),
        (location_bytes(l) + rest).skip(8) == rest,
{
    let s = location_bytes(l) + rest;
    crate::decode::lemma_be_bytes(l.index, be_bytes(l.begin) + rest);
    crate::decode::lemma_be_bytes(l.begin, rest);
    assert(s =~= be_bytes(l.index) + (be_bytes(l.begin) + rest));
    assert(s.skip(4) =~= be_bytes(l.begin) + rest);
    assert(s.skip(8) =~= rest);
}

/// How a location is shown: its piece index and offset in decimal, with a
/// space between them.
pub open spec fn location_text(l: Location) -> Seq<char> {
    ascii_chars(decimal(l.index as nat)) + " "@ + ascii_chars(decimal(l.begin as nat))
}

impl Location {
    /// The location as `index begin`.
    pub fn debug_string(&self) -> (s: String)
        ensures
            s@ == location_text(*self),
    {
        let mut s = decimal_text(self.index as u64);
        s.append(" ");
        s.append(decimal_text(self.begin as u64).as_str());
        s
    }
}

} // verus!

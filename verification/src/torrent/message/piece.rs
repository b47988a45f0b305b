//! A block of a piece: its location and its bytes.

use super::location::{self, location_bytes, spec_location, Location};
use vstd::prelude::*;
use vstd::slice::slice_to_vec;

verus! {

/// The bytes of a block at `location`.
#[derive(Debug, PartialEq, Eq)]
pub struct Piece {
    pub location: Location,
    pub piece: Vec<u8>,
}

/// Why a block could not be read.
#[derive(Debug, Clone, Copy, PartialEq, Eq, Structural)]
pub enum Error {
    Location(location::Error),
}

/// What reading a block from `s` gives: a location, then all remaining
/// bytes.
pub open spec fn spec_piece(s: Seq<u8>) -> Result<(Location, Seq<u8>), Error> {
    match spec_location(s) {
        Err(e) => Err(Error::Location(e)),
        Ok(l) => Ok((l, s.skip(8))),
    }
}

/// Reads a block from `input`.
pub fn try_parse(input: &[u8]) -> (r: Result<Piece, Error>)
    ensures
        match spec_piece(input@) {
            Ok((l, b)) => r matches Ok(p) && p.location == l && p.piece@ == b,
            Err(e) => r == Err::<Piece, Error>(e),
        },
{
    let (input2, location) = match location::try_parse(input) {
        Ok(x) => x,
        Err(e) => return Err(Error::Location(e)),
    };
    Ok(Piece { location, piece: slice_to_vec(input2) })
}

impl Piece {
    /// The bytes of this block: its location, then its bytes.
    pub fn encode(&self) -> (r: Vec<u8>)
        ensures
            r@ == location_bytes(self.location) + self.piece@,
    {
        let mut out = self.location.encode();
        let mut i: usize = 0;
        while i < self.piece.len()
            invariant
                i <= self.piece@.len(),
                out@ == location_bytes(self.location) + self.piece@.take(i as int),
            decreases self.piece@.len() - i,
        {
            out.push(self.piece[i]);
            i = i + 1;
            proof {
                assert(out@ =~= location_bytes(self.location) + self.piece@.take(i as int));
            }
        }
        proof {
            assert(self.piece@.take(self.piece@.len() as int) =~= self.piece@);
        }
        out
    }
}

} // verus!

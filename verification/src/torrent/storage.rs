//! The local progress of a download: how many bytes the bitfield of done
//! pieces takes, and checking a stored one.

use super::meta::info::Info;
use super::protocol::{count0_spec, initial_state, lemma_zeros_bounds, zeros, State};
use vstd::prelude::*;
use vstd::string::StringExecFns;

verus! {

/// Declares std's I/O error, which the progress file's reading and writing
/// give.
#[verifier::external_type_specification]
#[verifier::external_body]
pub struct ExIoError(std::io::Error);

/// The quotient of `a` by a positive `b` rounded toward zero.
pub open spec fn truncated_quotient_by_positive(a: int, b: int) -> int {
    if a >= 0 {
        a / b
    } else {
        -((-a) / b)
    }
}

/// The quotient of `a` by `b` rounded toward zero, as Rust's `/` gives it.
pub open spec fn truncated_quotient(a: int, b: int) -> int {
    if b < 0 {
        -truncated_quotient_by_positive(a, -b)
    } else {
        truncated_quotient_by_positive(a, b)
    }
}

/// Whether `ceil_div(a, b)` neither divides by zero nor overflows.
pub open spec fn ceil_div_defined(a: int, b: int) -> bool {
    &&& b != 0
    &&& i64::MIN <= a + b <= i64::MAX
    &&& i64::MIN <= a + b - 1
    &&& !(a + b - 1 == i64::MIN && b == -1)
}

/// `a / b` rounded up, for positive `b`: `a + b - 1` divided by `b`.
fn ceil_div(a: i64, b: i64) -> (r: i64)
    requires
        ceil_div_defined(a as int, b as int),
    ensures
        r == truncated_quotient(a + b - 1, b as int),
{
    let x = a + b - 1;
    if b > 0 {
        x / b
    } else if b == i64::MIN {
        if x == i64::MIN {
            1
        } else {
            0
        }
    } else {
        let c = -b;
        let q = x / c;
        proof {
            if x < 0 {
                let m: int = -x;
                assert(m / (c as int) <= m) by (nonlinear_arith)
                    requires
                        c >= 1,
                        m >= 0,
                ;
                if x == i64::MIN {
                    assert(m / (c as int) <= m / 2) by (nonlinear_arith)
                        requires
                            c >= 2,
                            m >= 0,
                    ;
                }
            }
        }
        -q
    }
}

/// How many bytes the bitfield of a torrent of `length` bytes in pieces of
/// `piece_length` bytes takes: one bit per piece, rounded up.
pub open spec fn bitfield_size(length: int, piece_length: int) -> int {
    truncated_quotient(truncated_quotient(length + piece_length - 1, piece_length) + 7, 8)
}

/// Whether computing [`bitfield_size`] neither divides by zero nor
/// overflows.
pub open spec fn bitfield_size_defined(length: int, piece_length: int) -> bool {
    &&& ceil_div_defined(length, piece_length)
    &&& ceil_div_defined(truncated_quotient(length + piece_length - 1, piece_length), 8)
}

/// Why the progress of a download could not be loaded.
#[derive(Debug)]
pub enum Error {
    IO(std::io::Error),
    PiecesMismatch(usize, usize),
}

/// The name of the file that holds the progress of the download to `path`.
pub fn progress_path(path: &str) -> (r: String)
    ensures
        r@ == path@ + ".progress"@,
{
    let mut r = path.to_string();
    r.append(".progress");
    r
}

/// The bitfield of done pieces for a torrent of `length` bytes in pieces of
/// `piece_length` bytes: the `stored` one if there is one and it has the
/// right size, else all pieces to do if none was stored.
pub fn load_bitfield(stored: Option<Vec<u8>>, length: i64, piece_length: i64) -> (r: Result<
    Vec<u8>,
    Error,
>)
    requires
        bitfield_size_defined(length as int, piece_length as int),
    ensures
        match stored {
            Some(b) => if b@.len() == bitfield_size(length as int, piece_length as int) as usize {
                r matches Ok(v) && v@ == b@
            } else {
                r matches Err(Error::PiecesMismatch(found, expected)) && found == b@.len()
                    && expected == bitfield_size(length as int, piece_length as int) as usize
            },
            None => r matches Ok(v) && v@ == Seq::new(
                bitfield_size(length as int, piece_length as int) as usize as nat,
                |i: int| 0u8,
            ),
        },
{
    let pieces = ceil_div(ceil_div(length, piece_length), 8) as usize;
    match stored {
        Some(bitfield) => {
            if bitfield.len() != pieces {
                return Err(Error::PiecesMismatch(bitfield.len(), pieces));
            }
            Ok(bitfield)
        },
        None => Ok(zeros(pieces)),
    }
}

/// The state of a new connection for the torrent `info`, with `bitfield`
/// telling which of its pieces are done: the state that [`State::new`]
/// gives for the torrent's length and piece length.
pub fn new_state(info: &Info, bitfield: Vec<u8>) -> (r: State)
    requires
        bitfield@.len() > 0,
        bitfield@.len() <= usize::MAX / 8,
        count0_spec(info.length as usize as int, bitfield@) <= info.length as usize,
    ensures
        r@ == initial_state(info.length as usize, info.piece_length as usize, bitfield@),
{
    State::new(info.length as usize, info.piece_length as usize, bitfield)
}

/// A bitfield of the size that [`load_bitfield`] asks for, for a torrent of
/// positive length and piece length, is one that [`new_state`] accepts: it
/// is not empty and it has no more clear bits than the torrent has bytes.
pub proof fn law_bitfield_fits_state(length: i64, piece_length: i64, bitfield: Seq<u8>)
    requires
        0 < length <= usize::MAX - 7,
        0 < piece_length,
        bitfield_size_defined(length as int, piece_length as int),
        bitfield.len() == bitfield_size(length as int, piece_length as int),
    ensures
        bitfield.len() > 0,
        bitfield.len() <= usize::MAX / 8,
        count0_spec(length as usize as int, bitfield) <= length as usize,
{
    let l = length as int;
    let pl = piece_length as int;
    let p = (l + pl - 1) / pl;
    assert(1 <= p <= l) by (nonlinear_arith)
        requires
            l >= 1,
            pl >= 1,
            p == (l + pl - 1) / pl,
    ;
    let n = bitfield.len() as int;
    assert(n == (p + 7) / 8);
    assert(n >= 1 && 8 * (n - 1) <= p - 1 && n <= (l + 7) / 8) by (nonlinear_arith)
        requires
            n == (p + 7) / 8,
            1 <= p <= l,
    ;
    assert(n <= usize::MAX / 8) by (nonlinear_arith)
        requires
            n <= (l + 7) / 8,
            l <= usize::MAX - 7,
    ;
    lemma_zeros_bounds(bitfield.drop_last(), bitfield.last(), l % 8);
    assert(8 * (n - 1) + l % 8 <= l) by (nonlinear_arith)
        requires
            8 * (n - 1) <= l - 1,
            n >= 1,
            l >= 1,
    ;
    assert(length as usize as int == l);
}

} // verus!

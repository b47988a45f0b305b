//! Bencoded integers: `i`, an optional `-`, decimal digits, `e`.

use super::{after, negated, spec_integer_end, Failure};
use crate::decode;
use crate::text::bytes_to_i64;
use std::num::ParseIntError;
use vstd::prelude::*;

verus! {

/// Why an integer could not be parsed.
#[derive(Debug, PartialEq, Eq)]
pub enum Error {
    Decode(decode::Error),
    ParseInt(ParseIntError),
    LeadingZeroes,
    NegativeZero,
}

impl Error {
    /// Whether this error is the failure `f`.
    pub open spec fn fails_as(self, f: Failure) -> bool {
        match f {
            Failure::IntegerNoEnd => self == Error::Decode(decode::Error::NoDelimeter(101)),
            Failure::IntegerParseInt => self is ParseInt,
            Failure::LeadingZeroes => self == Error::LeadingZeroes,
            Failure::NegativeZero => self == Error::NegativeZero,
            _ => false,
        }
    }
}

/// Whether `r` is the outcome `expected` of parsing an integer from `s`.
pub open spec fn integer_outcome(
    s: Seq<u8>,
    expected: Result<(int, i64), Failure>,
    r: Result<(&[u8], i64), Error>,
) -> bool {
    match expected {
        Ok((n, x)) => r matches Ok((rest, y)) && rest@ == s.skip(n) && y == x,
        Err(f) => r matches Err(e) && e.fails_as(f),
    }
}

/// Parses an integer if `input` starts with `i`; `None` if it does not.
pub fn try_parse(input: &[u8]) -> (r: Option<Result<(&[u8], i64), Error>>)
    ensures
        !(input@.len() > 0 && input@[0] == 105) ==> r is None,
        input@.len() > 0 && input@[0] == 105 ==> (r matches Some(res) && integer_outcome(
            input@,
            after(spec_integer_end(input@.skip(1)), 1),
            res,
        )),
{
    let rest = match decode::char(input, 105) {
        Ok(rest) => rest,
        Err(_) => return None,
    };
    let r = end(rest);
    proof {
        super::lemma_integer_consumes(rest@);
        if let Ok((n, x)) = spec_integer_end(rest@) {
            assert(input@.skip(1).skip(n) =~= input@.skip(n + 1));
        }
    }
    Some(r)
}

/// Parses the sign and digits up to the closing `e`.
fn end(input: &[u8]) -> (r: Result<(&[u8], i64), Error>)
    ensures
        integer_outcome(input@, spec_integer_end(input@), r),
{
    let (input2, sign): (&[u8], i64) = match decode::char(input, 45) {
        Ok(rest) => (rest, -1),
        _ => (input, 1),
    };
    let ghost sign_len: int = if sign == -1 {
        1
    } else {
        0
    };
    assert(input2@ == input@.skip(sign_len));
    let (rest, digits) = match decode::till(input2, 101) {
        Ok(x) => x,
        Err(e) => return Err(Error::Decode(e)),
    };
    proof {
        crate::decode::lemma_find_first(input2@, 101);
        let k = input@.len() - sign_len - rest@.len() - 1;
        assert(input2@.skip(k + 1) =~= input@.skip(sign_len + k + 1));
    }
    if digits.len() > 0 && digits[0] == 48 {
        if digits.len() == 1 {
            if sign == 1 {
                Ok((rest, 0))
            } else {
                Err(Error::NegativeZero)
            }
        } else {
            Err(Error::LeadingZeroes)
        }
    } else {
        let n = match bytes_to_i64(digits) {
            Ok(n) => n,
            Err(e) => return Err(Error::ParseInt(e)),
        };
        let value = n.wrapping_mul(sign);
        proof {
            if sign == -1 {
                assert(value == negated(n as int)) by (nonlinear_arith)
                    requires
                        value == vstd::wrapping::i64_specs::wrapping_mul(n, sign),
                        sign == -1,
                ;
            }
        }
        Ok((rest, value))
    }
}

} // verus!

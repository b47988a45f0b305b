//! Bencoded byte strings: decimal length, `:`, the bytes.

use super::{after, spec_string, spec_string_end, Failure};
use crate::decode;
use crate::text::{all_ascii, ascii_chars, bytes_to_usize, decimal, lemma_decimal, push_decimal, string_from_ascii};
use std::num::ParseIntError;
use vstd::prelude::*;
use vstd::slice::slice_to_vec;

verus! {

/// A byte string.
#[derive(Debug, PartialEq, Eq, PartialOrd, Ord, Clone)]
pub struct Bytes {
    pub bytes: Vec<u8>,
}

impl View for Bytes {
    type V = Seq<u8>;

    open spec fn view(&self) -> Seq<u8> {
        self.bytes@
    }
}

/// Why a byte string could not be parsed.
#[derive(Debug, PartialEq, Eq)]
pub enum Error {
    ParseInt(ParseIntError),
    NotEnough,
}

impl Error {
    /// Whether this error is the failure `f`.
    pub open spec fn fails_as(self, f: Failure) -> bool {
        match f {
            Failure::StringParseInt => self is ParseInt,
            Failure::StringNotEnough => self == Error::NotEnough,
            _ => false,
        }
    }
}

/// Whether `r` is the outcome `expected` of parsing a byte string from `s`.
pub open spec fn bytes_outcome(
    s: Seq<u8>,
    expected: Result<(int, Seq<u8>), Failure>,
    r: Result<(&[u8], Bytes), Error>,
) -> bool {
    match expected {
        Ok((n, b)) => r matches Ok((rest, x)) && rest@ == s.skip(n) && x.bytes@ == b,
        Err(f) => r matches Err(e) && e.fails_as(f),
    }
}

/// Parses a byte string if `input` holds a colon; `None` if it does not.
pub fn try_parse(input: &[u8]) -> (r: Option<Result<(&[u8], Bytes), Error>>)
    ensures
        match spec_string(input@) {
            None => r is None,
            Some(expected) => r matches Some(res) && bytes_outcome(input@, expected, res),
        },
{
    let (rest, digits) = match decode::till(input, 58) {
        Ok(x) => x,
        Err(_) => return None,
    };
    let r = end(rest, digits);
    proof {
        crate::decode::lemma_find_first(input@, 58);
        let k = input@.len() - rest@.len() - 1;
        if let Ok((n, b)) = spec_string_end(rest@, digits@) {
            assert(input@.skip(k + 1).skip(n) =~= input@.skip(k + 1 + n));
        }
    }
    Some(r)
}

/// Reads the length from `digits` and takes that many bytes from `input`.
fn end<'a>(input: &'a [u8], digits: &'a [u8]) -> (r: Result<(&'a [u8], Bytes), Error>)
    ensures
        bytes_outcome(input@, spec_string_end(input@, digits@), r),
{
    let n = match bytes_to_usize(digits) {
        Ok(n) => n,
        Err(e) => return Err(Error::ParseInt(e)),
    };
    if input.len() < n {
        return Err(Error::NotEnough);
    }
    let (bytes, input) = input.split_at(n);
    let bytes = slice_to_vec(bytes);
    Ok((input, Bytes { bytes }))
}

/// The uppercase hexadecimal digit for `n`.
pub open spec fn upper_hex(n: int) -> u8
    recommends
        0 <= n < 16,
{
    if n < 10 {
        (48 + n) as u8
    } else {
        (55 + n) as u8
    }
}

/// How one byte is shown: a backslash or a double quote behind a backslash,
/// any other printable ASCII character as it is, and any other byte as
/// `\u00` and two uppercase hexadecimal digits.
pub open spec fn escaped_byte(c: u8) -> Seq<u8> {
    if c == 92 || c == 34 {
        seq![92u8, c]
    } else if 32 <= c <= 126 {
        seq![c]
    } else {
        seq![92u8, 117u8, 48u8, 48u8, upper_hex(c as int / 16), upper_hex(c as int % 16)]
    }
}

/// How the bytes are shown, one after the other.
pub open spec fn escaped(s: Seq<u8>) -> Seq<u8>
    decreases s.len(),
{
    if s.len() == 0 {
        seq![]
    } else {
        escaped(s.drop_last()) + escaped_byte(s.last())
    }
}

/// How a byte string is shown: its bytes escaped, or for more than 100
/// bytes, `... (<length> bytes)`.
pub open spec fn shown(s: Seq<u8>) -> Seq<u8> {
    if s.len() > 100 {
        seq![46u8, 46, 46, 32, 40] + decimal(s.len()) + seq![32u8, 98, 121, 116, 101, 115, 41]
    } else {
        escaped(s)
    }
}

/// How a byte string is shown is ASCII text.
pub proof fn lemma_shown_ascii(s: Seq<u8>)
    ensures
        all_ascii(shown(s)),
{
    if s.len() > 100 {
        lemma_decimal(s.len());
        let t = shown(s);
        let a = seq![46u8, 46, 46, 32, 40];
        let d = decimal(s.len());
        assert forall|i: int| 0 <= i < t.len() implies #[trigger] t[i] < 128 by {
            if a.len() <= i < a.len() + d.len() {
                assert(t[i] == d[i - a.len()]);
            }
        }
    } else {
        lemma_escaped_ascii(s);
    }
}

/// Escaped bytes are ASCII text.
proof fn lemma_escaped_ascii(s: Seq<u8>)
    ensures
        all_ascii(escaped(s)),
    decreases s.len(),
{
    if s.len() > 0 {
        lemma_escaped_ascii(s.drop_last());
        let p = escaped(s.drop_last());
        let q = escaped_byte(s.last());
        assert forall|i: int| 0 <= i < (p + q).len() implies #[trigger] (p + q)[i] < 128 by {
            if i < p.len() {
                assert((p + q)[i] == p[i]);
            }
        }
    }
}

/// The text that shows a byte string.
pub open spec fn shown_text(s: Seq<u8>) -> Seq<char> {
    ascii_chars(shown(s))
}

impl Bytes {
    /// How these bytes are shown in text: see [`shown`].
    pub fn debug_string(&self) -> (s: String)
        ensures
            s@ == shown_text(self.bytes@),
    {
        let mut out: Vec<u8> = Vec::new();
        let n = self.bytes.len();
        if n > 100 {
            out.push(46);
            out.push(46);
            out.push(46);
            out.push(32);
            out.push(40);
            push_decimal(&mut out, n as u64);
            out.push(32);
            out.push(98);
            out.push(121);
            out.push(116);
            out.push(101);
            out.push(115);
            out.push(41);
            proof {
                assert(out@ =~= shown(self.bytes@));
            }
        } else {
            let mut i: usize = 0;
            while i < n
                invariant
                    n == self.bytes@.len(),
                    i <= n,
                    out@ == escaped(self.bytes@.take(i as int)),
                decreases n - i,
            {
                let c = self.bytes[i];
                if c == 92 || c == 34 {
                    out.push(92);
                    out.push(c);
                } else if 32 <= c && c <= 126 {
                    out.push(c);
                } else {
                    let hi = c / 16;
                    let lo = c % 16;
                    out.push(92);
                    out.push(117);
                    out.push(48);
                    out.push(48);
                    out.push(if hi < 10 { 48 + hi } else { 55 + hi });
                    out.push(if lo < 10 { 48 + lo } else { 55 + lo });
                }
                proof {
                    assert(self.bytes@.take(i + 1).drop_last() =~= self.bytes@.take(i as int));
                    assert(out@ =~= escaped(self.bytes@.take(i + 1)));
                }
                i = i + 1;
            }
            proof {
                assert(self.bytes@.take(n as int) =~= self.bytes@);
            }
        }
        proof {
            lemma_shown_ascii(self.bytes@);
        }
        string_from_ascii(out.as_slice())
    }
}

/// Whether every byte is printable ASCII, the space included, other than a
/// backslash or a double quote.
pub open spec fn plain_text(s: Seq<u8>) -> bool {
    forall|i: int| 0 <= i < s.len() ==> 32 <= #[trigger] s[i] <= 126 && s[i] != 92 && s[i] != 34
}

/// Printable text of at most 100 bytes without a backslash or a double
/// quote is shown as it stands, so [`Bytes::debug_string`] gives its
/// characters unchanged.
pub proof fn law_plain_text_shown_as_is(s: Seq<u8>)
    requires
        s.len() <= 100,
        plain_text(s),
    ensures
        shown(s) == s,
        shown_text(s) == ascii_chars(s),
    decreases s.len(),
{
    if s.len() > 0 {
        let p = s.drop_last();
        assert forall|i: int| 0 <= i < p.len() implies 32 <= #[trigger] p[i] <= 126 && p[i] != 92
            && p[i] != 34 by {
            assert(p[i] == s[i]);
        }
        law_plain_text_shown_as_is(p);
        let c = s.last();
        assert(32 <= c <= 126 && c != 92 && c != 34);
        assert(escaped(s) =~= p + seq![c]);
        assert(p + seq![c] =~= s);
    }
}

/// A backslash or a double quote is shown behind a backslash, so that
/// shown text can be read back unambiguously.
pub proof fn law_quotes_escaped(p: Seq<u8>, q: Seq<u8>)
    requires
        p.len() + 1 + q.len() <= 100,
        plain_text(p),
        plain_text(q),
    ensures
        shown(p + seq![92u8] + q) == p + seq![92u8, 92u8] + q,
        shown(p + seq![34u8] + q) == p + seq![92u8, 34u8] + q,
{
    lemma_escaped_concat(p, seq![92u8] + q);
    lemma_escaped_concat(seq![92u8], q);
    lemma_escaped_concat(p, seq![34u8] + q);
    lemma_escaped_concat(seq![34u8], q);
    law_plain_text_shown_as_is(p);
    law_plain_text_shown_as_is(q);
    assert(escaped(seq![92u8]) =~= seq![92u8, 92u8]) by {
        assert(seq![92u8].drop_last() =~= Seq::<u8>::empty());
        assert(escaped(Seq::<u8>::empty()) =~= Seq::<u8>::empty());
        assert(seq![92u8].last() == 92u8);
        assert(escaped_byte(92u8) =~= seq![92u8, 92u8]);
    }
    assert(escaped(seq![34u8]) =~= seq![92u8, 34u8]) by {
        assert(seq![34u8].drop_last() =~= Seq::<u8>::empty());
        assert(escaped(Seq::<u8>::empty()) =~= Seq::<u8>::empty());
        assert(seq![34u8].last() == 34u8);
        assert(escaped_byte(34u8) =~= seq![92u8, 34u8]);
    }
    assert(p + seq![92u8] + q =~= p + (seq![92u8] + q));
    assert(p + seq![34u8] + q =~= p + (seq![34u8] + q));
    assert(p + (seq![92u8, 92u8] + q) =~= p + seq![92u8, 92u8] + q);
    assert(p + (seq![92u8, 34u8] + q) =~= p + seq![92u8, 34u8] + q);
}

/// Showing bytes one after the other: the escapes of a concatenation are the
/// escapes of its parts, concatenated.
proof fn lemma_escaped_concat(a: Seq<u8>, b: Seq<u8>)
    ensures
        escaped(a + b) == escaped(a) + escaped(b),
    decreases b.len(),
{
    if b.len() == 0 {
        assert(a + b =~= a);
        assert(escaped(a) + escaped(b) =~= escaped(a));
    } else {
        lemma_escaped_concat(a, b.drop_last());
        assert((a + b).drop_last() =~= a + b.drop_last());
        assert((a + b).last() == b.last());
        assert(escaped(a) + escaped(b) =~= escaped(a) + escaped(b.drop_last()) + escaped_byte(
            b.last(),
        ));
    }
}

} // verus!

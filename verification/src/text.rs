//! Numbers written as text: what std's integer parsing accepts, the decimal
//! and hexadecimal forms this crate writes, and the std conversions between
//! bytes and text that the crate relies on.

use std::num::ParseIntError;
use vstd::prelude::*;

verus! {

/// `std::num::ParseIntError`, the error of std's integer parsing; the crate
/// only carries it through.
#[verifier::external_type_specification]
#[verifier::external_body]
pub struct ExParseIntError(ParseIntError);

/// Whether the character is an ASCII decimal digit.
pub open spec fn is_digit(c: char) -> bool {
    48 <= c as int <= 57
}

/// Whether every character of `s` is an ASCII decimal digit.
pub open spec fn all_digits(s: Seq<char>) -> bool {
    forall|i: int| 0 <= i < s.len() ==> is_digit(#[trigger] s[i])
}

/// The number that a run of decimal digits stands for.
pub open spec fn digits_value(s: Seq<char>) -> int
    decreases s.len(),
{
    if s.len() == 0 {
        0
    } else {
        digits_value(s.drop_last()) * 10 + (s.last() as int - 48)
    }
}

/// The integer that std's `str::parse` reads from `s`, before its range is
/// checked: an optional `+` (or `-` when `signed`), then one or more ASCII
/// decimal digits and nothing else.
pub open spec fn int_text_value(s: Seq<char>, signed: bool) -> Option<int> {
    let negative = signed && s.len() > 0 && s[0] == '-';
    let body = if s.len() > 0 && (s[0] == '+' || negative) {
        s.skip(1)
    } else {
        s
    };
    if body.len() > 0 && all_digits(body) {
        Some(
            if negative {
                -digits_value(body)
            } else {
                digits_value(body)
            },
        )
    } else {
        None
    }
}

/// The characters of a sequence of ASCII bytes.
pub open spec fn ascii_chars(b: Seq<u8>) -> Seq<char> {
    b.map_values(|x: u8| x as char)
}

/// Whether every byte is ASCII.
pub open spec fn all_ascii(b: Seq<u8>) -> bool {
    forall|i: int| 0 <= i < b.len() ==> #[trigger] b[i] < 128
}

/// The integer that parsing the lossy text of `b` reads, before its range is
/// checked: non-ASCII bytes never form part of a number.
pub open spec fn bytes_int_value(b: Seq<u8>, signed: bool) -> Option<int> {
    if all_ascii(b) {
        int_text_value(ascii_chars(b), signed)
    } else {
        None
    }
}

/// The text std's `String::from_utf8_lossy` makes of `bytes`.
pub uninterp spec fn utf8_lossy(bytes: Seq<u8>) -> Seq<char>;

/// Calls `String::from_utf8_lossy` and takes ownership of the text. The
/// contract claims what its documentation says: valid UTF-8 is decoded as it
/// stands (ASCII bytes become the same characters), and every other sequence
/// becomes U+FFFD, so a byte of 128 or more never yields an ASCII character
/// alone: the text then holds some character of 128 or more.
#[verifier::external_body]
pub(crate) fn lossy_text(bytes: &[u8]) -> (s: String)
    ensures
        s@ == utf8_lossy(bytes@),
        all_ascii(bytes@) ==> s@ == ascii_chars(bytes@),
        !all_ascii(bytes@) ==> exists|j: int| 0 <= j < s@.len() && s@[j] as int >= 128,
{
    String::from_utf8_lossy(bytes).into_owned()
}

/// Calls `str::parse::<i64>`. The contract states std's documented grammar:
/// an optional `+` or `-` and one or more ASCII digits, in the range of `i64`;
/// any other text is an error. Which `ParseIntError` comes back is left open.
#[verifier::external_body]
pub(crate) fn parse_i64(text: &str) -> (r: Result<i64, ParseIntError>)
    ensures
        match int_text_value(text@, true) {
            Some(v) => if i64::MIN <= v <= i64::MAX {
                r == Ok::<i64, ParseIntError>(v as i64)
            } else {
                r is Err
            },
            None => r is Err,
        },
{
    text.parse::<i64>()
}

/// Calls `str::parse::<usize>`. The contract states std's documented grammar:
/// an optional `+` and one or more ASCII digits, at most `usize::MAX`; any
/// other text is an error. Which `ParseIntError` comes back is left open.
#[verifier::external_body]
pub(crate) fn parse_usize(text: &str) -> (r: Result<usize, ParseIntError>)
    ensures
        match int_text_value(text@, false) {
            Some(v) => if v <= usize::MAX {
                r == Ok::<usize, ParseIntError>(v as usize)
            } else {
                r is Err
            },
            None => r is Err,
        },
{
    text.parse::<usize>()
}

/// A character outside ASCII keeps std's grammar from reading a number.
pub proof fn lemma_non_ascii_not_int(s: Seq<char>, signed: bool, j: int)
    requires
        0 <= j < s.len(),
        s[j] as int >= 128,
    ensures
        int_text_value(s, signed) is None,
{
    let negative = signed && s.len() > 0 && s[0] == '-';
    let body = if s.len() > 0 && (s[0] == '+' || negative) {
        s.skip(1)
    } else {
        s
    };
    if body.len() > 0 && all_digits(body) {
        if s.len() > 0 && (s[0] == '+' || negative) {
            assert(j >= 1);
            assert(body[j - 1] == s[j]);
        } else {
            assert(body[j] == s[j]);
        }
    }
}

/// Parses the lossy text of `digits` as an `i64`.
pub fn bytes_to_i64(digits: &[u8]) -> (r: Result<i64, ParseIntError>)
    ensures
        match bytes_int_value(digits@, true) {
            Some(v) => if i64::MIN <= v <= i64::MAX {
                r == Ok::<i64, ParseIntError>(v as i64)
            } else {
                r is Err
            },
            None => r is Err,
        },
{
    let text = lossy_text(digits);
    proof {
        if !all_ascii(digits@) {
            let j = choose|j: int| 0 <= j < text@.len() && text@[j] as int >= 128;
            lemma_non_ascii_not_int(text@, true, j);
        }
    }
    parse_i64(text.as_str())
}

/// Parses the lossy text of `digits` as a `usize`.
pub fn bytes_to_usize(digits: &[u8]) -> (r: Result<usize, ParseIntError>)
    ensures
        bytes_int_value(digits@, false) matches Some(v) ==> v >= 0,
        match bytes_int_value(digits@, false) {
            Some(v) => if v <= usize::MAX {
                r == Ok::<usize, ParseIntError>(v as usize)
            } else {
                r is Err
            },
            None => r is Err,
        },
{
    let text = lossy_text(digits);
    proof {
        if !all_ascii(digits@) {
            let j = choose|j: int| 0 <= j < text@.len() && text@[j] as int >= 128;
            lemma_non_ascii_not_int(text@, false, j);
        } else if int_text_value(ascii_chars(digits@), false) is Some {
            let c = ascii_chars(digits@);
            if c.len() > 0 && c[0] == '+' {
                lemma_digits_value_nonneg(c.skip(1));
            } else {
                lemma_digits_value_nonneg(c);
            }
        }
    }
    parse_usize(text.as_str())
}

/// Digits stand for a number of at least zero.
pub proof fn lemma_digits_value_nonneg(s: Seq<char>)
    requires
        all_digits(s),
    ensures
        digits_value(s) >= 0,
    decreases s.len(),
{
    if s.len() > 0 {
        assert(is_digit(s[s.len() - 1]));
        lemma_digits_value_nonneg(s.drop_last());
    }
}

/// Text made of ASCII bytes.
pub fn string_from_ascii(bytes: &[u8]) -> (s: String)
    requires
        all_ascii(bytes@),
    ensures
        s@ == ascii_chars(bytes@),
{
    lossy_text(bytes)
}

/// The lowercase hexadecimal digit for `n`.
pub open spec fn hex_digit(n: int) -> u8
    recommends
        0 <= n < 16,
{
    if n < 10 {
        (48 + n) as u8
    } else {
        (87 + n) as u8
    }
}

/// Each byte as `%` and two lowercase hexadecimal digits.
pub open spec fn percent_hex(s: Seq<u8>) -> Seq<u8>
    decreases s.len(),
{
    if s.len() == 0 {
        seq![]
    } else {
        percent_hex(s.drop_last()) + seq![
            37u8,
            hex_digit(s.last() as int / 16),
            hex_digit(s.last() as int % 16),
        ]
    }
}

/// Percent-encoding is ASCII and three bytes for each byte.
pub proof fn lemma_percent_hex(s: Seq<u8>)
    ensures
        all_ascii(percent_hex(s)),
        percent_hex(s).len() == 3 * s.len(),
    decreases s.len(),
{
    if s.len() > 0 {
        lemma_percent_hex(s.drop_last());
        let p = percent_hex(s.drop_last());
        let t = seq![37u8, hex_digit(s.last() as int / 16), hex_digit(s.last() as int % 16)];
        assert forall|i: int| 0 <= i < (p + t).len() implies #[trigger] (p + t)[i] < 128 by {
            if i < p.len() {
                assert((p + t)[i] == p[i]);
            }
        }
    }
}

/// Appends `%` and two lowercase hexadecimal digits for each byte of `bytes`.
pub fn push_percent_hex(out: &mut Vec<u8>, bytes: &[u8])
    ensures
        final(out)@ == old(out)@ + percent_hex(bytes@),
{
    let ghost start = out@;
    let mut i: usize = 0;
    while i < bytes.len()
        invariant
            i <= bytes@.len(),
            out@ == start + percent_hex(bytes@.take(i as int)),
        decreases bytes@.len() - i,
    {
        let b = bytes[i];
        let hi: u8 = b / 16;
        let lo: u8 = b % 16;
        out.push(37);
        out.push(if hi < 10 { 48 + hi } else { 87 + hi });
        out.push(if lo < 10 { 48 + lo } else { 87 + lo });
        proof {
            assert(bytes@.take(i + 1).drop_last() =~= bytes@.take(i as int));
            assert(out@ =~= start + percent_hex(bytes@.take(i + 1)));
        }
        i = i + 1;
    }
    proof {
        assert(bytes@.take(bytes@.len() as int) =~= bytes@);
    }
}

/// The decimal digits of `n`, most significant first, without leading zeros.
pub open spec fn decimal(n: nat) -> Seq<u8>
    decreases n,
{
    if n < 10 {
        seq![(48 + n) as u8]
    } else {
        decimal(n / 10).push((48 + n % 10) as u8)
    }
}

/// The decimal text of an integer, with a `-` in front of a negative one.
pub open spec fn int_text(x: int) -> Seq<u8> {
    if x < 0 {
        seq![45u8] + decimal((-x) as nat)
    } else {
        decimal(x as nat)
    }
}

/// Appends the decimal digits of `n` to `out`.
pub fn push_decimal(out: &mut Vec<u8>, n: u64)
    ensures
        final(out)@ == old(out)@ + decimal(n as nat),
    decreases n,
{
    if n >= 10 {
        push_decimal(out, n / 10);
    }
    let d: u8 = (n % 10) as u8;
    out.push(48 + d);
    proof {
        if n < 10 {
            assert(decimal(n as nat) =~= seq![(48 + n) as u8]);
        }
    }
}

/// Appends the decimal text of `x` to `out`.
pub fn push_int(out: &mut Vec<u8>, x: i64)
    ensures
        final(out)@ == old(out)@ + int_text(x as int),
{
    if x < 0 {
        out.push(45);
        let m: u64 = (-(x as i128)) as u64;
        push_decimal(out, m);
    } else {
        push_decimal(out, x as u64);
    }
}

/// The decimal digits are digits, the first is `0` only for zero itself, and
/// they read back as `n`.
pub proof fn lemma_decimal(n: nat)
    ensures
        decimal(n).len() >= 1,
        all_ascii(decimal(n)),
        all_digits(ascii_chars(decimal(n))),
        decimal(n)[0] == 48 <==> n == 0,
        digits_value(ascii_chars(decimal(n))) == n,
    decreases n,
{
    if n >= 10 {
        lemma_decimal(n / 10);
        let d = decimal(n / 10);
        let c = ascii_chars(decimal(n));
        assert(ascii_chars(d).push((48 + n % 10) as u8 as char) =~= c);
        assert(c.drop_last() =~= ascii_chars(d));
        assert(c.last() as int == 48 + n % 10);
        assert(digits_value(c) == digits_value(ascii_chars(d)) * 10 + n % 10);
        assert(n == (n / 10) * 10 + n % 10) by (nonlinear_arith);
    } else {
        let c = ascii_chars(decimal(n));
        assert(c.drop_last() =~= Seq::<char>::empty());
        assert(c.last() as int == 48 + n);
        assert(digits_value(c.drop_last()) == 0);
    }
}

/// The decimal digits of `n` are read back as `n` by std's grammar.
pub proof fn lemma_decimal_value(n: nat, signed: bool)
    ensures
        bytes_int_value(decimal(n), signed) == Some(n as int),
{
    lemma_decimal(n);
    let c = ascii_chars(decimal(n));
    assert(c[0] == decimal(n)[0] as char);
    assert(is_digit(c[0]));
}

/// A byte that is not a decimal digit never occurs in decimal digits.
pub proof fn lemma_decimal_excludes(n: nat, b: u8)
    requires
        !(48 <= b <= 57),
    ensures
        forall|i: int| 0 <= i < decimal(n).len() ==> decimal(n)[i] != b,
{
    lemma_decimal(n);
    assert forall|i: int| 0 <= i < decimal(n).len() implies decimal(n)[i] != b by {
        assert(is_digit(ascii_chars(decimal(n))[i]));
    }
}

/// The decimal digits of `n` as text.
pub(crate) fn decimal_text(n: u64) -> (s: String)
    ensures
        s@ == ascii_chars(decimal(n as nat)),
{
    let mut out: Vec<u8> = Vec::new();
    push_decimal(&mut out, n);
    proof {
        lemma_decimal(n as nat);
        assert(out@ =~= decimal(n as nat));
    }
    string_from_ascii(out.as_slice())
}

/// The texts of a sequence of strings.
pub open spec fn strings_view(v: Seq<String>) -> Seq<Seq<char>> {
    Seq::new(v.len(), |i: int| v[i]@)
}

/// Whether `d` is decimal digits as [`decimal`] writes them: at least one
/// ASCII digit, and no leading zero unless the number is zero.
pub open spec fn plain_digits(d: Seq<u8>) -> bool {
    &&& d.len() > 0
    &&& forall|i: int| 0 <= i < d.len() ==> 48 <= #[trigger] d[i] <= 57
    &&& (d[0] != 48 || d.len() == 1)
}

/// Digits with no leading zero are the decimal digits of the number they
/// stand for.
pub proof fn lemma_plain_digits(d: Seq<u8>)
    requires
        plain_digits(d),
    ensures
        all_ascii(d),
        all_digits(ascii_chars(d)),
        digits_value(ascii_chars(d)) >= 0,
        decimal(digits_value(ascii_chars(d)) as nat) == d,
    decreases d.len(),
{
    let c = ascii_chars(d);
    assert forall|i: int| 0 <= i < c.len() implies is_digit(#[trigger] c[i]) by {
        assert(48 <= d[i] <= 57);
    }
    lemma_digits_value_nonneg(c);
    if d.len() == 1 {
        assert(c.drop_last() =~= Seq::<char>::empty());
        assert(c[0] == d[0] as char);
        assert(digits_value(c.drop_last()) == 0);
        assert(c.last() == c[0]);
        assert(digits_value(c) == d[0] - 48);
        assert(decimal(digits_value(c) as nat) =~= d);
    } else {
        let p = d.drop_last();
        assert(p[0] == d[0]);
        assert forall|i: int| 0 <= i < p.len() implies 48 <= #[trigger] p[i] <= 57 by {
            assert(p[i] == d[i]);
        }
        lemma_plain_digits(p);
        assert(ascii_chars(p) =~= c.drop_last());
        let vp = digits_value(ascii_chars(p));
        lemma_decimal(vp as nat);
        assert(vp != 0);
        let r = d.last() as int - 48;
        assert(0 <= r < 10);
        let v = digits_value(c);
        assert(v == vp * 10 + r);
        assert(v / 10 == vp && v % 10 == r) by (nonlinear_arith)
            requires
                v == vp * 10 + r,
                0 <= r < 10,
        ;
        assert(decimal(v as nat) =~= p.push(d.last()));
        assert(p.push(d.last()) =~= d);
    }
}

} // verus!

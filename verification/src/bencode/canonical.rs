//! Parsing and encoding undo each other the other way round too: bytes in
//! the form that [`super::encode`] writes are given back exactly by encoding
//! what [`super::item`] parsed from them.

use super::{
    encoding, lemma_item_consumes, list_encoding, negated, pairs_encoding, spec_dict_items,
    spec_integer_end, spec_item, spec_list_items, spec_string, spec_string_end, Value,
};
use crate::decode::{find_first, lemma_find_first};
use crate::text::{
    all_digits, ascii_chars, bytes_int_value, decimal, digits_value, int_text, is_digit,
    lemma_decimal, lemma_plain_digits, plain_digits,
};
use vstd::prelude::*;

verus! {

/// Whether the length of a byte string at the front of `s` is written in
/// plain decimal: it starts with a digit, and if that digit is `0`, the
/// colon follows it.
pub open spec fn canonical_length(s: Seq<u8>) -> bool {
    &&& s.len() > 0
    &&& 48 <= s[0] <= 57
    &&& s[0] == 48 ==> s.len() > 1 && s[1] == 58
}

/// Whether the integer after an `i` at the front of `t` is written in plain
/// decimal: a digit comes right after its optional minus sign.
pub open spec fn canonical_integer(t: Seq<u8>) -> bool {
    let sign: int = if t.len() > 0 && t[0] == 45 {
        1
    } else {
        0
    };
    t.len() > sign && 48 <= t[sign] <= 57
}

/// Whether every length and integer of the item at the front of `s`, down
/// to the innermost, is written in plain decimal, as `encode` writes it.
pub open spec fn canonical_item(s: Seq<u8>) -> bool
    decreases s.len(), 1int,
{
    if s.len() > 0 && s[0] == 108 {
        canonical_list(s.skip(1))
    } else if s.len() > 0 && s[0] == 100 {
        canonical_dict(s.skip(1))
    } else if s.len() > 0 && s[0] == 105 {
        canonical_integer(s.skip(1))
    } else {
        canonical_length(s)
    }
}

/// Whether the items of a list, after its `l`, are each in plain decimal.
pub open spec fn canonical_list(t: Seq<u8>) -> bool
    decreases t.len(), 2int,
{
    if t.len() == 0 || t[0] == 101 {
        true
    } else {
        canonical_item(t) && match spec_item(t) {
            Ok((n, _)) => if 0 < n <= t.len() {
                canonical_list(t.skip(n))
            } else {
                true
            },
            Err(_) => true,
        }
    }
}

/// Whether the keys and values of a dictionary, after its `d`, are each in
/// plain decimal.
pub open spec fn canonical_dict(t: Seq<u8>) -> bool
    decreases t.len(), 2int,
{
    if t.len() == 0 || t[0] == 101 {
        true
    } else {
        canonical_item(t) && match spec_item(t) {
            Ok((n1, _)) => if 0 < n1 <= t.len() {
                canonical_item(t.skip(n1)) && match spec_item(t.skip(n1)) {
                    Ok((n2, _)) => if 0 < n2 <= t.len() - n1 {
                        canonical_dict(t.skip(n1 + n2))
                    } else {
                        true
                    },
                    Err(_) => true,
                }
            } else {
                true
            },
            Err(_) => true,
        }
    }
}

/// Digits that std reads as a number, starting with a digit and with no
/// leading zero, are that number's decimal digits.
proof fn lemma_read_digits(d: Seq<u8>, signed: bool)
    requires
        d.len() > 0,
        48 <= d[0] <= 57,
        d[0] != 48 || d.len() == 1,
        bytes_int_value(d, signed) is Some,
    ensures
        plain_digits(d),
        bytes_int_value(d, signed) == Some(digits_value(ascii_chars(d))),
        decimal(digits_value(ascii_chars(d)) as nat) == d,
        digits_value(ascii_chars(d)) >= 0,
{
    let c = ascii_chars(d);
    assert(c[0] == d[0] as char);
    assert(c[0] != '+' && c[0] != '-');
    assert(all_digits(c));
    assert forall|i: int| 0 <= i < d.len() implies 48 <= #[trigger] d[i] <= 57 by {
        assert(is_digit(c[i]));
        assert(c[i] == d[i] as char);
    }
    lemma_plain_digits(d);
}

/// A byte string in plain decimal is given back by its encoding.
proof fn lemma_string_reencode(s: Seq<u8>)
    requires
        canonical_length(s),
        spec_string(s) matches Some(Ok(_)),
    ensures
        ({
            let (n, b) = spec_string(s)->Some_0->Ok_0;
            0 < n <= s.len() && encoding(Value::Str(b)) == s.take(n)
        }),
{
    lemma_find_first(s, 58);
    let k = find_first(s, 58)->Some_0;
    let digits = s.take(k);
    assert(k > 0);
    if s[0] == 48 {
        assert(k == 1);
    }
    let rest = s.skip(k + 1);
    let (len, b) = spec_string_end(rest, digits)->Ok_0;
    lemma_read_digits(digits, false);
    assert(b == rest.take(len));
    assert(decimal(b.len()) == digits);
    assert(encoding(Value::Str(b)) =~= s.take(k + 1 + len));
}

/// An integer in plain decimal is given back by its encoding.
proof fn lemma_integer_reencode(t: Seq<u8>)
    requires
        canonical_integer(t),
        spec_integer_end(t) is Ok,
    ensures
        ({
            let (used, x) = spec_integer_end(t)->Ok_0;
            0 < used <= t.len() && int_text(x as int) + seq![101u8] == t.take(used)
        }),
{
    let negative = t.len() > 0 && t[0] == 45;
    let sign: int = if negative {
        1
    } else {
        0
    };
    let u = t.skip(sign);
    lemma_find_first(u, 101);
    let k = find_first(u, 101)->Some_0;
    let digits = u.take(k);
    let (used, x) = spec_integer_end(t)->Ok_0;
    assert(k > 0);
    assert(digits[0] == t[sign]);
    assert(used == sign + k + 1);
    if digits[0] == 48 {
        assert(digits.len() == 1 && !negative && x == 0);
        lemma_decimal(0);
        assert(int_text(0) =~= seq![48u8]);
        assert(int_text(x as int) + seq![101u8] =~= t.take(used));
    } else {
        lemma_read_digits(digits, true);
        let v = digits_value(ascii_chars(digits));
        lemma_decimal(v as nat);
        assert(v != 0);
        if negative {
            assert(x == negated(v));
            assert(x == -v);
            assert(int_text(x as int) + seq![101u8] =~= t.take(used));
        } else {
            assert(x == v);
            assert(int_text(x as int) + seq![101u8] =~= t.take(used));
        }
    }
}

/// An item in plain decimal is given back by its encoding: re-encoding the
/// value parsed from `s` gives the bytes the parser consumed.
proof fn lemma_item_reencode(s: Seq<u8>)
    requires
        canonical_item(s),
        spec_item(s) is Ok,
    ensures
        ({
            let (n, v) = spec_item(s)->Ok_0;
            0 < n <= s.len() && encoding(v) == s.take(n)
        }),
    decreases s.len(), 1int,
{
    lemma_item_consumes(s);
    let (n, v) = spec_item(s)->Ok_0;
    if s[0] == 108 {
        let t = s.skip(1);
        lemma_list_reencode(t);
        let (m, vs) = spec_list_items(t)->Ok_0;
        assert(v == Value::List(vs) && n == m + 1);
        assert(s.take(n) =~= seq![108u8] + t.take(m));
        assert(encoding(v) =~= s.take(n));
    } else if s[0] == 100 {
        let t = s.skip(1);
        lemma_dict_reencode(t);
        let (m, ps) = spec_dict_items(t)->Ok_0;
        assert(v == Value::Dict(ps) && n == m + 1);
        assert(s.take(n) =~= seq![100u8] + t.take(m));
        assert(encoding(v) =~= s.take(n));
    } else if s[0] == 105 {
        let t = s.skip(1);
        lemma_integer_reencode(t);
        let (used, x) = spec_integer_end(t)->Ok_0;
        assert(v == Value::Int(x) && n == used + 1);
        assert(s.take(n) =~= seq![105u8] + t.take(used));
        assert(encoding(v) =~= s.take(n));
    } else {
        lemma_string_reencode(s);
    }
}

/// The items of a list in plain decimal, with the closing `e`, are given back
/// by their encodings.
proof fn lemma_list_reencode(t: Seq<u8>)
    requires
        canonical_list(t),
        spec_list_items(t) is Ok,
    ensures
        ({
            let (m, vs) = spec_list_items(t)->Ok_0;
            0 < m <= t.len() && list_encoding(vs) + seq![101u8] == t.take(m)
        }),
    decreases t.len(), 2int,
{
    let (m, vs) = spec_list_items(t)->Ok_0;
    if t[0] == 101 {
        assert(list_encoding(vs) + seq![101u8] =~= t.take(m));
    } else {
        lemma_item_reencode(t);
        let (n, v) = spec_item(t)->Ok_0;
        let rest = t.skip(n);
        lemma_list_reencode(rest);
        let (m2, vs2) = spec_list_items(rest)->Ok_0;
        assert(vs =~= seq![v] + vs2);
        assert(vs.subrange(1, vs.len() as int) =~= vs2);
        assert(list_encoding(vs) == encoding(v) + list_encoding(vs2));
        assert(t.take(m) =~= t.take(n) + rest.take(m2));
        assert(list_encoding(vs) + seq![101u8] =~= t.take(m));
    }
}

/// The pairs of a dictionary in plain decimal, with the closing `e`, are
/// given back by their encodings.
proof fn lemma_dict_reencode(t: Seq<u8>)
    requires
        canonical_dict(t),
        spec_dict_items(t) is Ok,
    ensures
        ({
            let (m, ps) = spec_dict_items(t)->Ok_0;
            0 < m <= t.len() && pairs_encoding(ps) + seq![101u8] == t.take(m)
        }),
    decreases t.len(), 2int,
{
    let (m, ps) = spec_dict_items(t)->Ok_0;
    if t[0] == 101 {
        assert(pairs_encoding(ps) + seq![101u8] =~= t.take(m));
    } else {
        lemma_item_reencode(t);
        let (n1, k) = spec_item(t)->Ok_0;
        let t1 = t.skip(n1);
        lemma_item_reencode(t1);
        let (n2, v) = spec_item(t1)->Ok_0;
        let rest = t.skip(n1 + n2);
        assert(t1.skip(n2) =~= rest);
        lemma_dict_reencode(rest);
        let (m2, ps2) = spec_dict_items(rest)->Ok_0;
        assert(ps =~= seq![(k, v)] + ps2);
        assert(ps.subrange(1, ps.len() as int) =~= ps2);
        assert(pairs_encoding(ps) == encoding(k) + encoding(v) + pairs_encoding(ps2));
        assert(t.take(m) =~= t.take(n1) + t1.take(n2) + rest.take(m2));
        assert(pairs_encoding(ps) + seq![101u8] =~= t.take(m));
    }
}

/// Bytes in the form that `encode` writes, every length and integer in plain
/// decimal, are given back exactly by encoding the item parsed from them:
/// re-encoding what the parser read from `s` gives the bytes it consumed.
pub proof fn law_reencode_canonical(s: Seq<u8>)
    requires
        canonical_item(s),
        spec_item(s) is Ok,
    ensures
        encoding(spec_item(s)->Ok_0.1) == s.take(spec_item(s)->Ok_0.0),
{
    lemma_item_reencode(s);
}

} // verus!

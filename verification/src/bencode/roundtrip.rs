//! Encoding and parsing undo each other: the bytes that [`super::encode`]
//! writes for an item are parsed by [`super::item`] back into that item,
//! whatever follows them.

use super::{
    encoding, item_value, list_encoding, negated, spec_integer_end, pairs_encoding, spec_dict_items, spec_item,
    spec_list_items, Item, Value,
};
use crate::text::{
    ascii_chars, decimal, int_text, is_digit, lemma_decimal, lemma_decimal_excludes,
    lemma_decimal_value,
};
use vstd::prelude::*;

verus! {

/// Whether a value can be written and read back: every byte string is no
/// longer than `usize::MAX` and no integer is `i64::MIN`, whose text the
/// integer parser cannot read.
pub open spec fn round_trips(v: Value) -> bool
    decreases v,
{
    match v {
        Value::Str(b) => b.len() <= usize::MAX,
        Value::Int(x) => x != i64::MIN,
        Value::List(vs) => forall|i: int| 0 <= i < vs.len() ==> round_trips(#[trigger] vs[i]),
        Value::Dict(ps) => forall|i: int|
            0 <= i < ps.len() ==> round_trips(#[trigger] ps[i].0) && round_trips(ps[i].1),
    }
}

/// The first decimal digit is a digit.
proof fn lemma_decimal_first(n: nat)
    ensures
        48 <= decimal(n)[0] <= 57,
{
    lemma_decimal(n);
    assert(is_digit(ascii_chars(decimal(n))[0]));
}

/// An encoding is never empty and never starts with the `e` that ends lists
/// and dictionaries.
proof fn lemma_encoding_first(v: Value)
    ensures
        encoding(v).len() > 0,
        encoding(v)[0] != 101,
{
    match v {
        Value::Str(b) => {
            lemma_decimal_first(b.len());
            lemma_decimal(b.len());
        },
        _ => {},
    }
}

/// The parser reads the encoding of `v`, followed by anything, as `v`.
proof fn lemma_encoding_parse(v: Value, rest: Seq<u8>)
    requires
        round_trips(v),
    ensures
        spec_item(encoding(v) + rest) == Ok::<(int, Value), super::Failure>(
            (encoding(v).len() as int, v),
        ),
    decreases v,
{
    let s = encoding(v) + rest;
    match v {
        Value::Str(b) => {
            let len = b.len();
            let d = decimal(len);
            lemma_decimal(len);
            lemma_decimal_first(len);
            lemma_decimal_excludes(len, 58);
            lemma_decimal_value(len, false);
            assert(s =~= d + (seq![58u8] + (b + rest)));
            assert(s[0] == d[0]);
            assert(s[d.len() as int] == 58);
            assert forall|j: int| 0 <= j < d.len() implies s[j] != 58 by {
                assert(s[j] == d[j]);
            }
            crate::decode::lemma_find_first_at(s, 58, d.len() as int);
            assert(s.take(d.len() as int) =~= d);
            assert(s.skip(d.len() as int + 1) =~= b + rest);
            assert((b + rest).take(len as int) =~= b);
            assert(super::spec_string_end(b + rest, d) == Ok::<(int, Seq<u8>), super::Failure>(
                (len as int, b),
            ));
            assert(super::spec_string(s) == Some(
                Ok::<(int, Seq<u8>), super::Failure>(((d.len() + 1 + len) as int, b)),
            ));
            assert(!(s[0] == 108 || s[0] == 100 || s[0] == 105));
            assert(spec_item(s) == Ok::<(int, Value), super::Failure>((encoding(v).len() as int, v)));
        },
        Value::Int(x) => {
            assert(s[0] == 105);
            assert(s.skip(1) =~= int_text(x as int) + seq![101u8] + rest);
            lemma_integer_parse(x, rest);
        },
        Value::List(vs) => {
            assert(decreases_to!(v => v->List_0));
            assert(s.skip(1) =~= list_encoding(vs) + seq![101u8] + rest);
            lemma_list_parse(vs, rest);
        },
        Value::Dict(ps) => {
            assert(decreases_to!(v => v->Dict_0));
            assert(s.skip(1) =~= pairs_encoding(ps) + seq![101u8] + rest);
            lemma_pairs_parse(ps, rest);
        },
    }
}

/// The integer parser reads the text of `x`, then `e`, then anything, as `x`.
proof fn lemma_integer_parse(x: i64, rest: Seq<u8>)
    requires
        x != i64::MIN,
    ensures
        spec_integer_end(int_text(x as int) + seq![101u8] + rest) == Ok::<(int, i64), super::Failure>(
            (int_text(x as int).len() as int + 1, x),
        ),
{
    let u = int_text(x as int) + seq![101u8] + rest;
    if x < 0 {
        let m = (-x) as nat;
        let d = decimal(m);
        lemma_decimal(m);
        lemma_decimal_excludes(m, 101);
        lemma_decimal_value(m, true);
        assert(u =~= seq![45u8] + (d + (seq![101u8] + rest)));
        let t = u.skip(1);
        assert(t =~= d + (seq![101u8] + rest));
        assert(t[d.len() as int] == 101);
        assert forall|j: int| 0 <= j < d.len() implies t[j] != 101 by {
            assert(t[j] == d[j]);
        }
        crate::decode::lemma_find_first_at(t, 101, d.len() as int);
        assert(t.take(d.len() as int) =~= d);
        assert(negated(m as int) == x);
    } else {
        let m = x as nat;
        let d = decimal(m);
        lemma_decimal(m);
        lemma_decimal_first(m);
        lemma_decimal_excludes(m, 101);
        lemma_decimal_value(m, true);
        assert(u =~= d + (seq![101u8] + rest));
        assert(u[0] == d[0]);
        assert(u[d.len() as int] == 101);
        assert forall|j: int| 0 <= j < d.len() implies u[j] != 101 by {
            assert(u[j] == d[j]);
        }
        crate::decode::lemma_find_first_at(u, 101, d.len() as int);
        assert(u.skip(0) =~= u);
        assert(u.take(d.len() as int) =~= d);
        if m == 0 {
            assert(d =~= seq![48u8]);
        }
    }
}

/// Whether every key and value of a dictionary's pairs can be written and
/// read back.
proof fn lemma_round_trips_dict(v: Value)
    requires
        round_trips(v),
        v is Dict,
    ensures
        forall|i: int|
            0 <= i < v->Dict_0.len() ==> round_trips(#[trigger] v->Dict_0[i].0) && round_trips(
                v->Dict_0[i].1,
            ),
{
}

/// The list parser reads the encodings of `vs`, then `e`, then anything, as
/// `vs`.
proof fn lemma_list_parse(vs: Seq<Value>, rest: Seq<u8>)
    requires
        forall|i: int| 0 <= i < vs.len() ==> round_trips(#[trigger] vs[i]),
    ensures
        spec_list_items(list_encoding(vs) + seq![101u8] + rest) == Ok::<
            (int, Seq<Value>),
            super::Failure,
        >((list_encoding(vs).len() as int + 1, vs)),
    decreases vs,
{
    let s = list_encoding(vs) + seq![101u8] + rest;
    if vs.len() == 0 {
        assert(s[0] == 101);
        assert(vs =~= Seq::<Value>::empty());
    } else {
        let v0 = vs[0];
        let tail = vs.subrange(1, vs.len() as int);
        let after_first = list_encoding(tail) + seq![101u8] + rest;
        assert(s =~= encoding(v0) + after_first);
        lemma_encoding_first(v0);
        assert(s[0] == encoding(v0)[0]);
        assert(round_trips(vs[0]));
        lemma_encoding_parse(v0, after_first);
        let n = encoding(v0).len() as int;
        assert(s.skip(n) =~= after_first);
        assert forall|i: int| 0 <= i < tail.len() implies round_trips(#[trigger] tail[i]) by {
            assert(tail[i] == vs[i + 1]);
        }
        lemma_list_parse(tail, rest);
        assert(seq![v0] + tail =~= vs);
    }
}

/// The dictionary parser reads the encodings of the pairs `ps`, then `e`,
/// then anything, as `ps`.
proof fn lemma_pairs_parse(ps: Seq<(Value, Value)>, rest: Seq<u8>)
    requires
        round_trips(Value::Dict(ps)),
    ensures
        spec_dict_items(pairs_encoding(ps) + seq![101u8] + rest) == Ok::<
            (int, Seq<(Value, Value)>),
            super::Failure,
        >((pairs_encoding(ps).len() as int + 1, ps)),
    decreases ps,
{
    let s = pairs_encoding(ps) + seq![101u8] + rest;
    if ps.len() == 0 {
        assert(s[0] == 101);
        assert(ps =~= Seq::<(Value, Value)>::empty());
    } else {
        let (k0, v0) = ps[0];
        let tail = ps.subrange(1, ps.len() as int);
        let after_pair = pairs_encoding(tail) + seq![101u8] + rest;
        let after_key = encoding(v0) + after_pair;
        assert(s =~= encoding(k0) + after_key);
        lemma_encoding_first(k0);
        assert(s[0] == encoding(k0)[0]);
        lemma_round_trips_dict(Value::Dict(ps));
        assert(round_trips(ps[0].0) && round_trips(ps[0].1));
        assert(decreases_to!(ps => ps[0]));
        assert(decreases_to!(ps[0] => ps[0].0));
        lemma_encoding_parse(k0, after_key);
        let n1 = encoding(k0).len() as int;
        assert(s.skip(n1) =~= after_key);
        lemma_encoding_parse(v0, after_pair);
        let n2 = encoding(v0).len() as int;
        assert(s.skip(n1 + n2) =~= after_pair);
        assert forall|i: int| 0 <= i < tail.len() implies round_trips(#[trigger] tail[i].0)
            && round_trips(tail[i].1) by {
            assert(tail[i] == ps[i + 1]);
        }
        assert(round_trips(Value::Dict(tail)));
        lemma_pairs_parse(tail, rest);
        assert(seq![(k0, v0)] + tail =~= ps);
    }
}

/// Encoding an item and parsing the bytes back, followed by any bytes at
/// all, gives the item again and stops exactly where its encoding ends. This
/// holds of every item whose byte strings fit in memory and none of whose
/// integers is `i64::MIN`.
pub proof fn law_parse_encoding(item: Item, rest: Seq<u8>)
    requires
        round_trips(item_value(item)),
    ensures
        spec_item(encoding(item@) + rest) == Ok::<(int, Value), super::Failure>(
            (encoding(item@).len() as int, item@),
        ),
{
    lemma_encoding_parse(item@, rest);
}

} // verus!

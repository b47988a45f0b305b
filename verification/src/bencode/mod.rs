//! Bencode, the encoding of torrent files and tracker responses: byte
//! strings, integers, lists and dictionaries.
//!
//! The grammar that [`item`] accepts is stated once, over byte sequences, by
//! the spec functions of this module; the parser and [`encode`] are proved
//! against it, and encoding an item and parsing it back gives the item again.

use crate::decode::find_first;
use crate::text::{bytes_int_value, decimal, int_text, push_decimal, push_int};
use vstd::prelude::*;

pub mod canonical;
pub mod dictionary;
pub mod integer;
pub mod list;
pub mod order;
pub mod roundtrip;
pub mod string;

verus! {

/// Why an item could not be parsed.
#[derive(Debug, PartialEq, Eq)]
pub enum Error {
    String(string::Error),
    Integer(integer::Error),
    List(list::Error),
    Dictionary(dictionary::Error),
    NotAnItem,
}

/// A bencoded item.
#[derive(Debug, PartialEq, Eq, PartialOrd, Ord)]
pub enum Item {
    String(string::Bytes),
    Integer(i64),
    List(list::List),
    Dictionary(dictionary::Dictionary),
}

/// The value that an item stands for.
pub enum Value {
    Str(Seq<u8>),
    Int(i64),
    List(Seq<Value>),
    Dict(Seq<(Value, Value)>),
}

/// The value of an item.
pub open spec fn item_value(item: Item) -> Value
    decreases item,
{
    match item {
        Item::String(b) => Value::Str(b.bytes@),
        Item::Integer(x) => Value::Int(x),
        Item::List(xs) => Value::List(
            Seq::new(
                xs@.len(),
                |i: int|
                    if 0 <= i < xs@.len() {
                        item_value(xs@[i])
                    } else {
                        Value::Int(0)
                    },
            ),
        ),
        Item::Dictionary(d) => Value::Dict(
            Seq::new(
                d.items@.len(),
                |i: int|
                    if 0 <= i < d.items@.len() {
                        (item_value(d.items@[i].0), item_value(d.items@[i].1))
                    } else {
                        (Value::Int(0), Value::Int(0))
                    },
            ),
        ),
    }
}

/// The values of a sequence of items.
pub open spec fn list_values(xs: Seq<Item>) -> Seq<Value> {
    Seq::new(xs.len(), |i: int| item_value(xs[i]))
}

/// The values of a sequence of key-value pairs of items.
pub open spec fn pairs_values(ps: Seq<(Item, Item)>) -> Seq<(Value, Value)> {
    Seq::new(ps.len(), |i: int| (item_value(ps[i].0), item_value(ps[i].1)))
}

impl View for Item {
    type V = Value;

    open spec fn view(&self) -> Value {
        item_value(*self)
    }
}

/// A list item's value is the list of its elements' values, a dictionary
/// item's value the list of its pairs' values.
pub proof fn lemma_item_value(item: Item)
    ensures
        item matches Item::List(xs) ==> item_value(item) == Value::List(list_values(xs@)),
        item matches Item::Dictionary(d) ==> item_value(item) == Value::Dict(
            pairs_values(d.items@),
        ),
{
    match item {
        Item::List(xs) => {
            let vs = item_value(item)->List_0;
            assert(vs =~= list_values(xs@));
        },
        Item::Dictionary(d) => {
            let ps = item_value(item)->Dict_0;
            assert(ps =~= pairs_values(d.items@));
        },
        _ => {},
    }
}

/// The ways in which parsing fails, as the contracts speak of them.
pub enum Failure {
    StringParseInt,
    StringNotEnough,
    IntegerNoEnd,
    IntegerParseInt,
    LeadingZeroes,
    NegativeZero,
    ListNoEnd,
    DictionaryNoEnd,
    NotAnItem,
}

impl Error {
    /// Whether this error is the failure `f` (a `ParseIntError` inside is
    /// not told apart).
    pub open spec fn fails_as(self, f: Failure) -> bool {
        match f {
            Failure::StringParseInt | Failure::StringNotEnough => self matches Error::String(e)
                && e.fails_as(f),
            Failure::IntegerNoEnd
            | Failure::IntegerParseInt
            | Failure::LeadingZeroes
            | Failure::NegativeZero => self matches Error::Integer(e) && e.fails_as(f),
            Failure::ListNoEnd => self == Error::List(list::Error::NoEnd),
            Failure::DictionaryNoEnd => self == Error::Dictionary(dictionary::Error::NoEnd),
            Failure::NotAnItem => self == Error::NotAnItem,
        }
    }
}

/// A parse result `r` of some part of the input, moved `k` bytes further on.
pub open spec fn after<T>(r: Result<(int, T), Failure>, k: int) -> Result<(int, T), Failure> {
    match r {
        Ok((n, x)) => Ok((n + k, x)),
        Err(f) => Err(f),
    }
}

/// What the byte-string parser makes of the bytes after the colon, given the
/// length digits before it: how many bytes it takes and the string.
pub open spec fn spec_string_end(rest: Seq<u8>, digits: Seq<u8>) -> Result<(int, Seq<u8>), Failure> {
    match bytes_int_value(digits, false) {
        Some(n) => if 0 <= n <= usize::MAX {
            if rest.len() < n {
                Err(Failure::StringNotEnough)
            } else {
                Ok((n, rest.take(n)))
            }
        } else {
            Err(Failure::StringParseInt)
        },
        None => Err(Failure::StringParseInt),
    }
}

/// What the byte-string parser makes of `s`: nothing if `s` holds no colon.
pub open spec fn spec_string(s: Seq<u8>) -> Option<Result<(int, Seq<u8>), Failure>> {
    match find_first(s, 58) {
        None => None,
        Some(k) => Some(after(spec_string_end(s.skip(k + 1), s.take(k)), k + 1)),
    }
}

/// The integer `v` negated as a wrapping `i64` product with `-1`.
pub open spec fn negated(v: int) -> i64 {
    if v == i64::MIN {
        i64::MIN
    } else {
        (-v) as i64
    }
}

/// What the integer parser makes of the bytes after the `i`: an optional
/// `-`, then digits up to the first `e` that std reads as an `i64`, with no
/// leading zero and no negative zero.
pub open spec fn spec_integer_end(s: Seq<u8>) -> Result<(int, i64), Failure> {
    let negative = s.len() > 0 && s[0] == 45;
    let sign_len: int = if negative {
        1
    } else {
        0
    };
    let t = s.skip(sign_len);
    match find_first(t, 101) {
        None => Err(Failure::IntegerNoEnd),
        Some(k) => {
            let digits = t.take(k);
            let used = sign_len + k + 1;
            if digits.len() > 0 && digits[0] == 48 {
                if digits.len() == 1 {
                    if negative {
                        Err(Failure::NegativeZero)
                    } else {
                        Ok((used, 0i64))
                    }
                } else {
                    Err(Failure::LeadingZeroes)
                }
            } else {
                match bytes_int_value(digits, true) {
                    Some(v) => if i64::MIN <= v <= i64::MAX {
                        Ok(
                            (
                                used,
                                if negative {
                                    negated(v)
                                } else {
                                    v as i64
                                },
                            ),
                        )
                    } else {
                        Err(Failure::IntegerParseInt)
                    },
                    None => Err(Failure::IntegerParseInt),
                }
            }
        },
    }
}

/// What the item parser makes of `s`: how many bytes the item takes and its
/// value. A list starts with `l`, a dictionary with `d`, an integer with `i`;
/// anything else is tried as a byte string.
pub open spec fn spec_item(s: Seq<u8>) -> Result<(int, Value), Failure>
    decreases s.len(), 1int,
{
    if s.len() > 0 && s[0] == 108 {
        match spec_list_items(s.skip(1)) {
            Ok((n, vs)) => Ok((n + 1, Value::List(vs))),
            Err(f) => Err(f),
        }
    } else if s.len() > 0 && s[0] == 100 {
        match spec_dict_items(s.skip(1)) {
            Ok((n, ps)) => Ok((n + 1, Value::Dict(ps))),
            Err(f) => Err(f),
        }
    } else if s.len() > 0 && s[0] == 105 {
        match spec_integer_end(s.skip(1)) {
            Ok((n, x)) => Ok((n + 1, Value::Int(x))),
            Err(f) => Err(f),
        }
    } else {
        match spec_string(s) {
            None => Err(Failure::NotAnItem),
            Some(Ok((n, b))) => Ok((n, Value::Str(b))),
            Some(Err(f)) => Err(f),
        }
    }
}

/// What the list parser makes of the bytes after the `l`: items up to the
/// closing `e`.
pub open spec fn spec_list_items(s: Seq<u8>) -> Result<(int, Seq<Value>), Failure>
    decreases s.len(), 2int,
{
    if s.len() == 0 {
        Err(Failure::ListNoEnd)
    } else if s[0] == 101 {
        Ok((1, seq![]))
    } else {
        match spec_item(s) {
            Err(f) => Err(f),
            Ok((n, v)) => if 0 < n <= s.len() {
                match spec_list_items(s.skip(n)) {
                    Ok((m, vs)) => Ok((n + m, seq![v] + vs)),
                    Err(f) => Err(f),
                }
            } else {
                Err(Failure::NotAnItem)
            },
        }
    }
}

/// What the dictionary parser makes of the bytes after the `d`: key-value
/// pairs of items up to the closing `e`.
pub open spec fn spec_dict_items(s: Seq<u8>) -> Result<(int, Seq<(Value, Value)>), Failure>
    decreases s.len(), 2int,
{
    if s.len() == 0 {
        Err(Failure::DictionaryNoEnd)
    } else if s[0] == 101 {
        Ok((1, seq![]))
    } else {
        match spec_item(s) {
            Err(f) => Err(f),
            Ok((n1, k)) => if 0 < n1 <= s.len() {
                match spec_item(s.skip(n1)) {
                    Err(f) => Err(f),
                    Ok((n2, v)) => if 0 < n2 <= s.len() - n1 {
                        match spec_dict_items(s.skip(n1 + n2)) {
                            Ok((m, ps)) => Ok((n1 + n2 + m, seq![(k, v)] + ps)),
                            Err(f) => Err(f),
                        }
                    } else {
                        Err(Failure::NotAnItem)
                    },
                }
            } else {
                Err(Failure::NotAnItem)
            },
        }
    }
}

/// A parsed item takes at least one byte and no more than there are.
pub proof fn lemma_item_consumes(s: Seq<u8>)
    ensures
        spec_item(s) matches Ok((n, _)) ==> 0 < n <= s.len(),
    decreases s.len(), 1int,
{
    if s.len() > 0 && s[0] == 108 {
        lemma_list_consumes(s.skip(1));
    } else if s.len() > 0 && s[0] == 100 {
        lemma_dict_consumes(s.skip(1));
    } else if s.len() > 0 && s[0] == 105 {
        lemma_integer_consumes(s.skip(1));
    } else {
        crate::decode::lemma_find_first(s, 58);
    }
}

/// A parsed integer takes at least its closing byte and no more than there
/// are.
pub proof fn lemma_integer_consumes(s: Seq<u8>)
    ensures
        spec_integer_end(s) matches Ok((n, _)) ==> 0 < n <= s.len(),
{
    let negative = s.len() > 0 && s[0] == 45;
    let sign_len: int = if negative {
        1
    } else {
        0
    };
    crate::decode::lemma_find_first(s.skip(sign_len), 101);
}

/// A parsed list takes at least its closing byte and no more than there are.
pub proof fn lemma_list_consumes(s: Seq<u8>)
    ensures
        spec_list_items(s) matches Ok((n, _)) ==> 0 < n <= s.len(),
    decreases s.len(), 2int,
{
    if s.len() > 0 && s[0] != 101 {
        if let Ok((n, _)) = spec_item(s) {
            if 0 < n <= s.len() {
                lemma_list_consumes(s.skip(n));
            }
        }
    }
}

/// A parsed dictionary takes at least its closing byte and no more than there
/// are.
pub proof fn lemma_dict_consumes(s: Seq<u8>)
    ensures
        spec_dict_items(s) matches Ok((n, _)) ==> 0 < n <= s.len(),
    decreases s.len(), 2int,
{
    if s.len() > 0 && s[0] != 101 {
        if let Ok((n1, _)) = spec_item(s) {
            if 0 < n1 <= s.len() {
                if let Ok((n2, _)) = spec_item(s.skip(n1)) {
                    if 0 < n2 <= s.len() - n1 {
                        lemma_dict_consumes(s.skip(n1 + n2));
                    }
                }
            }
        }
    }
}

/// Whether `r` is the outcome `expected` of parsing an item from `s`.
pub open spec fn item_outcome(
    s: Seq<u8>,
    expected: Result<(int, Value), Failure>,
    r: Result<(&[u8], Item), Error>,
) -> bool {
    match expected {
        Ok((n, v)) => r matches Ok((rest, it)) && rest@ == s.skip(n) && item_value(it) == v,
        Err(f) => r matches Err(e) && e.fails_as(f),
    }
}

/// A copy of `item` with the same value.
pub fn copy_item(item: &Item) -> (r: Item)
    ensures
        r@ == item@,
    decreases item,
{
    match item {
        Item::String(b) => Item::String(string::Bytes { bytes: copy_bytes(&b.bytes) }),
        Item::Integer(x) => Item::Integer(*x),
        Item::List(xs) => {
            let mut out: list::List = Vec::new();
            let mut i: usize = 0;
            while i < xs.len()
                invariant
                    *item == Item::List(*xs),
                    i <= xs@.len(),
                    out@.len() == i,
                    forall|j: int| 0 <= j < i ==> item_value(#[trigger] out@[j]) == item_value(xs@[j]),
                decreases xs@.len() - i,
            {
                proof {
                    assert(decreases_to!(*item => (*item)->List_0));
                    assert(decreases_to!(xs@ => xs@[i as int]));
                }
                let c = copy_item(&xs[i]);
                out.push(c);
                i = i + 1;
            }
            let r = Item::List(out);
            proof {
                lemma_item_value(*item);
                lemma_item_value(r);
                assert(list_values(out@) =~= list_values(xs@));
            }
            r
        },
        Item::Dictionary(d) => {
            let mut out: Vec<(Item, Item)> = Vec::new();
            let mut i: usize = 0;
            while i < d.items.len()
                invariant
                    *item == Item::Dictionary(*d),
                    i <= d.items@.len(),
                    out@.len() == i,
                    forall|j: int| 0 <= j < i ==> item_value(#[trigger] out@[j].0) == item_value(d.items@[j].0)
                        && item_value(out@[j].1) == item_value(d.items@[j].1),
                decreases d.items@.len() - i,
            {
                proof {
                    assert(decreases_to!(*item => (*item)->Dictionary_0));
                    assert(decreases_to!(d.items@ => d.items@[i as int]));
                }
                let k = copy_item(&d.items[i].0);
                let v = copy_item(&d.items[i].1);
                out.push((k, v));
                i = i + 1;
            }
            let r = Item::Dictionary(dictionary::Dictionary { items: out });
            proof {
                lemma_item_value(*item);
                lemma_item_value(r);
                assert(pairs_values(out@) =~= pairs_values(d.items@));
            }
            r
        },
    }
}

/// A copy of a byte vector.
pub fn copy_bytes(b: &Vec<u8>) -> (r: Vec<u8>)
    ensures
        r@ == b@,
{
    let mut out: Vec<u8> = Vec::new();
    let mut i: usize = 0;
    while i < b.len()
        invariant
            i <= b@.len(),
            out@ == b@.take(i as int),
        decreases b@.len() - i,
    {
        out.push(b[i]);
        i = i + 1;
        proof {
            assert(out@ =~= b@.take(i as int));
        }
    }
    proof {
        assert(b@.take(b@.len() as int) =~= b@);
    }
    out
}

impl Clone for Item {
    fn clone(&self) -> (r: Item)
        ensures
            r@ == self@,
    {
        copy_item(self)
    }
}

fn list_item(x: list::List) -> (y: Item)
    ensures
        y == Item::List(x),
{
    Item::List(x)
}

fn dictionary_item(x: dictionary::Dictionary) -> (y: Item)
    ensures
        y == Item::Dictionary(x),
{
    Item::Dictionary(x)
}

fn integer_item(x: i64) -> (y: Item)
    ensures
        y == Item::Integer(x),
{
    Item::Integer(x)
}

fn string_item(x: string::Bytes) -> (y: Item)
    ensures
        y == Item::String(x),
{
    Item::String(x)
}

fn same_error(e: Error) -> (r: Error)
    ensures
        r == e,
{
    e
}

fn integer_error(e: integer::Error) -> (r: Error)
    ensures
        r == Error::Integer(e),
{
    Error::Integer(e)
}

fn string_error(e: string::Error) -> (r: Error)
    ensures
        r == Error::String(e),
{
    Error::String(e)
}

/// Parses one bencoded item from the front of `input` and returns the rest
/// with it.
pub fn item(input: &[u8]) -> (r: Result<(&[u8], Item), Error>)
    ensures
        item_outcome(input@, spec_item(input@), r),
    decreases input@.len(), 1int,
{
    if let Some(result) = list::try_parse(input) {
        let r = crate::decode::wrap(list_item, same_error)(result);
        proof {
            if r is Ok {
                lemma_item_value(r->Ok_0.1);
            }
        }
        return r;
    }
    if let Some(result) = dictionary::try_parse(input) {
        let r = crate::decode::wrap(dictionary_item, same_error)(result);
        proof {
            if r is Ok {
                lemma_item_value(r->Ok_0.1);
            }
        }
        return r;
    }
    if let Some(result) = integer::try_parse(input) {
        let r = crate::decode::wrap(integer_item, integer_error)(result);
        proof {
            if r is Ok {
                lemma_item_value(r->Ok_0.1);
            }
        }
        return r;
    }
    if let Some(result) = string::try_parse(input) {
        let r = crate::decode::wrap(string_item, string_error)(result);
        proof {
            if r is Ok {
                lemma_item_value(r->Ok_0.1);
            }
        }
        return r;
    }
    Err(Error::NotAnItem)
}

/// The bytes that encode a value: `<length>:<bytes>`, `i<integer>e`,
/// `l<items>e` and `d<keys and values>e`.
pub open spec fn encoding(v: Value) -> Seq<u8>
    decreases v,
{
    match v {
        Value::Str(b) => decimal(b.len()) + seq![58u8] + b,
        Value::Int(x) => seq![105u8] + int_text(x as int) + seq![101u8],
        Value::List(vs) => seq![108u8] + list_encoding(vs) + seq![101u8],
        Value::Dict(ps) => seq![100u8] + pairs_encoding(ps) + seq![101u8],
    }
}

/// The encodings of the values, one after the other.
pub open spec fn list_encoding(vs: Seq<Value>) -> Seq<u8>
    decreases vs,
{
    if vs.len() == 0 {
        seq![]
    } else {
        encoding(vs[0]) + list_encoding(vs.subrange(1, vs.len() as int))
    }
}

/// The encodings of the keys and values, one after the other.
pub open spec fn pairs_encoding(ps: Seq<(Value, Value)>) -> Seq<u8>
    decreases ps,
{
    if ps.len() == 0 {
        seq![]
    } else {
        encoding(ps[0].0) + encoding(ps[0].1) + pairs_encoding(ps.subrange(1, ps.len() as int))
    }
}

/// The encoding of a concatenation is the concatenation of the encodings.
pub proof fn lemma_list_encoding_concat(a: Seq<Value>, b: Seq<Value>)
    ensures
        list_encoding(a + b) == list_encoding(a) + list_encoding(b),
    decreases a.len(),
{
    if a.len() == 0 {
        assert(a + b =~= b);
        assert(list_encoding(a) + list_encoding(b) =~= list_encoding(b));
    } else {
        let t = a.subrange(1, a.len() as int);
        assert((a + b).subrange(1, (a + b).len() as int) =~= t + b);
        lemma_list_encoding_concat(t, b);
        assert(encoding(a[0]) + list_encoding(t + b) =~= encoding(a[0]) + list_encoding(t)
            + list_encoding(b));
    }
}

/// The encoding of a concatenation of pairs is the concatenation of the
/// encodings.
pub proof fn lemma_pairs_encoding_concat(a: Seq<(Value, Value)>, b: Seq<(Value, Value)>)
    ensures
        pairs_encoding(a + b) == pairs_encoding(a) + pairs_encoding(b),
    decreases a.len(),
{
    if a.len() == 0 {
        assert(a + b =~= b);
        assert(pairs_encoding(a) + pairs_encoding(b) =~= pairs_encoding(b));
    } else {
        let t = a.subrange(1, a.len() as int);
        assert((a + b).subrange(1, (a + b).len() as int) =~= t + b);
        lemma_pairs_encoding_concat(t, b);
        assert(encoding(a[0].0) + encoding(a[0].1) + pairs_encoding(t + b) =~= encoding(a[0].0)
            + encoding(a[0].1) + pairs_encoding(t) + pairs_encoding(b));
    }
}

/// Encoding one more value appends its encoding.
pub proof fn lemma_list_encoding_step(vs: Seq<Value>, i: int)
    requires
        0 <= i < vs.len(),
    ensures
        list_encoding(vs.take(i + 1)) == list_encoding(vs.take(i)) + encoding(vs[i]),
{
    assert(vs.take(i + 1) =~= vs.take(i) + seq![vs[i]]);
    lemma_list_encoding_concat(vs.take(i), seq![vs[i]]);
    assert(seq![vs[i]].subrange(1, 1) =~= Seq::<Value>::empty());
    assert(encoding(vs[i]) + list_encoding(Seq::<Value>::empty()) =~= encoding(vs[i]));
}

/// Encoding one more pair appends its encoding.
pub proof fn lemma_pairs_encoding_step(ps: Seq<(Value, Value)>, i: int)
    requires
        0 <= i < ps.len(),
    ensures
        pairs_encoding(ps.take(i + 1)) == pairs_encoding(ps.take(i)) + encoding(ps[i].0)
            + encoding(ps[i].1),
{
    assert(ps.take(i + 1) =~= ps.take(i) + seq![ps[i]]);
    lemma_pairs_encoding_concat(ps.take(i), seq![ps[i]]);
    assert(seq![ps[i]].subrange(1, 1) =~= Seq::<(Value, Value)>::empty());
    assert(encoding(ps[i].0) + encoding(ps[i].1) + pairs_encoding(
        Seq::<(Value, Value)>::empty(),
    ) =~= encoding(ps[i].0) + encoding(ps[i].1));
}

/// Appends all of `bytes` to `output`.
pub fn push_all(output: &mut Vec<u8>, bytes: &Vec<u8>)
    ensures
        final(output)@ == old(output)@ + bytes@,
{
    let ghost start = output@;
    let mut i: usize = 0;
    while i < bytes.len()
        invariant
            i <= bytes@.len(),
            output@ == start + bytes@.take(i as int),
        decreases bytes@.len() - i,
    {
        output.push(bytes[i]);
        i = i + 1;
        proof {
            assert(output@ =~= start + bytes@.take(i as int));
        }
    }
    proof {
        assert(bytes@.take(bytes@.len() as int) =~= bytes@);
    }
}

/// Encodes an item as bencode.
pub fn encode(item: &Item) -> (bytes: Vec<u8>)
    ensures
        bytes@ == encoding(item@),
{
    let mut bytes = Vec::new();
    encode_to(&mut bytes, item);
    proof {
        assert(Seq::<u8>::empty() + encoding(item@) =~= encoding(item@));
    }
    bytes
}

/// Appends the encoding of `item` to `output`.
fn encode_to(output: &mut Vec<u8>, item: &Item)
    ensures
        final(output)@ == old(output)@ + encoding(item@),
    decreases item,
{
    let ghost start = output@;
    match item {
        Item::String(x) => {
            let bytes = &x.bytes;
            push_decimal(output, bytes.len() as u64);
            output.push(58);
            push_all(output, bytes);
            proof {
                assert(output@ =~= start + encoding(item@));
            }
        },
        Item::Integer(x) => {
            output.push(105);
            push_int(output, *x);
            output.push(101);
            proof {
                assert(output@ =~= start + encoding(item@));
            }
        },
        Item::List(xs) => {
            output.push(108);
            let ghost vs = list_values(xs@);
            let mut i: usize = 0;
            while i < xs.len()
                invariant
                    *item == Item::List(*xs),
                    vs == list_values(xs@),
                    i <= xs@.len(),
                    output@ == start + seq![108u8] + list_encoding(vs.take(i as int)),
                decreases xs@.len() - i,
            {
                proof {
                    assert(decreases_to!(*item => (*item)->List_0));
                    assert(decreases_to!(xs@ => xs@[i as int]));
                    lemma_list_encoding_step(vs, i as int);
                }
                encode_to(output, &xs[i]);
                i = i + 1;
                proof {
                    assert(output@ =~= start + seq![108u8] + list_encoding(vs.take(i as int)));
                }
            }
            output.push(101);
            proof {
                lemma_item_value(*item);
                assert(vs.take(xs@.len() as int) =~= vs);
                assert(output@ =~= start + encoding(item@));
            }
        },
        Item::Dictionary(d) => {
            output.push(100);
            let ghost ps = pairs_values(d.items@);
            let mut i: usize = 0;
            while i < d.items.len()
                invariant
                    *item == Item::Dictionary(*d),
                    ps == pairs_values(d.items@),
                    i <= d.items@.len(),
                    output@ == start + seq![100u8] + pairs_encoding(ps.take(i as int)),
                decreases d.items@.len() - i,
            {
                proof {
                    assert(decreases_to!(*item => (*item)->Dictionary_0));
                    assert(decreases_to!(d.items@ => d.items@[i as int]));
                    lemma_pairs_encoding_step(ps, i as int);
                }
                encode_to(output, &d.items[i].0);
                encode_to(output, &d.items[i].1);
                i = i + 1;
                proof {
                    assert(output@ =~= start + seq![100u8] + pairs_encoding(ps.take(i as int)));
                }
            }
            output.push(101);
            proof {
                lemma_item_value(*item);
                assert(ps.take(d.items@.len() as int) =~= ps);
                assert(output@ =~= start + encoding(item@));
            }
        },
    }
}

} // verus!

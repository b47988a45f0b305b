//! Reading the parts of bencoded items, and the fields of dictionaries.

use super::{keys_of, lookup, spec_search};
use crate::bencode::dictionary::Dictionary;
use crate::bencode::list::List;
use crate::bencode::string::Bytes;
use crate::bencode::string::shown_text;
use crate::bencode::{copy_bytes, item_value, lemma_item_value, pairs_values, Item, Value};
use crate::text::strings_view;
use vstd::string::StringExecFns;
use vstd::prelude::*;
use vstd::slice::slice_to_vec;
use vstd::string::StringSliceAdditionalSpecFns;

verus! {

/// The name of an item's kind.
pub fn _top_string(x: &Item) -> (s: String)
    ensures
        s@ == kind_name(x@),
{
    let name = match x {
        Item::Dictionary(_) => "Dictionary",
        Item::List(_) => "List",
        Item::Integer(_) => "Integer",
        Item::String(_) => "String",
    };
    name.to_string()
}

/// The lines that show the top of a dictionary's pairs: for each pair whose
/// key is a byte string, that key shown, `: ` and the kind of its value.
pub open spec fn pair_lines(ps: Seq<(Value, Value)>) -> Seq<Seq<char>>
    decreases ps.len(),
{
    if ps.len() == 0 {
        seq![]
    } else {
        pair_lines(ps.drop_last()) + match ps.last().0 {
            Value::Str(k) => seq![shown_text(k) + ": "@ + kind_name(ps.last().1)],
            _ => seq![],
        }
    }
}

/// The lines that show the top of a value: the pairs of a dictionary as
/// [`pair_lines`] shows them, the kind of each element of a list, nothing
/// for anything else.
pub open spec fn top_lines_spec(v: Value) -> Seq<Seq<char>> {
    match v {
        Value::Dict(ps) => pair_lines(ps),
        Value::List(vs) => Seq::new(vs.len(), |i: int| kind_name(vs[i])),
        _ => seq![],
    }
}

/// The lines that show the top of an item, one line per entry.
pub fn top_lines(item: &Item) -> (r: Vec<String>)
    ensures
        strings_view(r@) == top_lines_spec(item@),
{
    proof {
        lemma_item_value(*item);
    }
    let mut out: Vec<String> = Vec::new();
    match item {
        Item::Dictionary(d) => {
            let ghost ps = pairs_values(d.items@);
            let mut i: usize = 0;
            while i < d.items.len()
                invariant
                    i <= d.items@.len(),
                    ps == pairs_values(d.items@),
                    strings_view(out@) == pair_lines(ps.take(i as int)),
                decreases d.items@.len() - i,
            {
                let ghost before = out@;
                if let Item::String(bytes) = &d.items[i].0 {
                    let mut line = bytes.debug_string();
                    line.append(": ");
                    line.append(_top_string(&d.items[i].1).as_str());
                    out.push(line);
                }
                proof {
                    assert(ps.take(i + 1).drop_last() =~= ps.take(i as int));
                    assert(strings_view(out@) =~= pair_lines(ps.take(i + 1)));
                }
                i = i + 1;
            }
            proof {
                assert(ps.take(d.items@.len() as int) =~= ps);
            }
        },
        Item::List(xs) => {
            let mut i: usize = 0;
            while i < xs.len()
                invariant
                    i <= xs@.len(),
                    out@.len() == i,
                    forall|j: int| 0 <= j < i ==> (#[trigger] out@[j])@ == kind_name(item_value(xs@[j])),
                decreases xs@.len() - i,
            {
                out.push(_top_string(&xs[i]));
                i = i + 1;
            }
            proof {
                assert(strings_view(out@) =~= top_lines_spec(item@));
            }
        },
        _ => {},
    }
    out
}

/// The name of a value's kind.
pub open spec fn kind_name(v: Value) -> Seq<char> {
    match v {
        Value::Dict(_) => "Dictionary"@,
        Value::List(_) => "List"@,
        Value::Int(_) => "Integer"@,
        Value::Str(_) => "String"@,
    }
}

/// The byte-string item holding the UTF-8 bytes of `name`.
pub fn key(name: &str) -> (r: Item)
    ensures
        r@ == Value::Str(name.spec_bytes()),
{
    Item::String(Bytes { bytes: slice_to_vec(name.as_bytes()) })
}

/// The bytes of a byte-string item.
pub fn string(item: &Item) -> (r: Option<&Bytes>)
    ensures
        match item {
            Item::String(b) => r == Some(b),
            _ => r is None,
        },
{
    if let Item::String(bytes) = item {
        Some(bytes)
    } else {
        None
    }
}

/// The number of an integer item.
pub fn integer(item: &Item) -> (r: Option<i64>)
    ensures
        match item {
            Item::Integer(x) => r == Some(*x),
            _ => r is None,
        },
{
    if let Item::Integer(x) = item {
        Some(*x)
    } else {
        None
    }
}

/// The elements of a list item.
pub fn list(item: &Item) -> (r: Option<&List>)
    ensures
        match item {
            Item::List(l) => r == Some(l),
            _ => r is None,
        },
{
    if let Item::List(l) = item {
        Some(l)
    } else {
        None
    }
}

/// The dictionary of a dictionary item.
pub fn dictionary(item: &Item) -> (r: Option<&Dictionary>)
    ensures
        match item {
            Item::Dictionary(d) => r == Some(d),
            _ => r is None,
        },
{
    if let Item::Dictionary(d) = item {
        Some(d)
    } else {
        None
    }
}

/// Why a field of a dictionary could not be read.
#[derive(Debug, PartialEq, Eq)]
pub enum FieldError {
    NotFound,
    NotValid,
}

/// Where the field named by the bytes `name` is found among the pairs of
/// `d`, if it is.
pub open spec fn field_index(name: Seq<u8>, d: Dictionary) -> Option<int> {
    spec_search(keys_of(d.items@), Value::Str(name), 0, d.items@.len() as int)
}

/// The item stored under the key `key_name`.
pub fn field<'a>(key_name: &str, d: &'a Dictionary) -> (r: Result<&'a Item, FieldError>)
    ensures
        match field_index(key_name.spec_bytes(), *d) {
            Some(i) => r == Ok::<&Item, FieldError>(&d.items@[i].1),
            None => r == Err::<&Item, FieldError>(FieldError::NotFound),
        },
{
    match lookup(&d.items, key(key_name)) {
        Some(item) => Ok(item),
        None => Err(FieldError::NotFound),
    }
}

/// The integer stored under the key `key_name`.
pub fn integer_field(key_name: &str, d: &Dictionary) -> (r: Result<i64, FieldError>)
    ensures
        match field_index(key_name.spec_bytes(), *d) {
            Some(i) => match d.items@[i].1 {
                Item::Integer(x) => r == Ok::<i64, FieldError>(x),
                _ => r == Err::<i64, FieldError>(FieldError::NotValid),
            },
            None => r == Err::<i64, FieldError>(FieldError::NotFound),
        },
{
    match integer(field(key_name, d)?) {
        Some(x) => Ok(x),
        None => Err(FieldError::NotValid),
    }
}

/// A copy of the byte string stored under the key `key_name`.
pub fn string_field(key_name: &str, d: &Dictionary) -> (r: Result<Bytes, FieldError>)
    ensures
        match field_index(key_name.spec_bytes(), *d) {
            Some(i) => match d.items@[i].1 {
                Item::String(b) => r matches Ok(c) && c@ == b@,
                _ => r == Err::<Bytes, FieldError>(FieldError::NotValid),
            },
            None => r == Err::<Bytes, FieldError>(FieldError::NotFound),
        },
{
    match string(field(key_name, d)?) {
        Some(b) => Ok(Bytes { bytes: copy_bytes(&b.bytes) }),
        None => Err(FieldError::NotValid),
    }
}

/// The keys of a dictionary's pairs of values.
pub open spec fn value_keys(ps: Seq<(Value, Value)>) -> Seq<Value> {
    Seq::new(ps.len(), |i: int| ps[i].0)
}

/// The value stored under the key named by the bytes `name` among the
/// pairs `ps`, as [`field`] finds it.
pub open spec fn value_field(ps: Seq<(Value, Value)>, name: Seq<u8>) -> Option<Value> {
    match spec_search(value_keys(ps), Value::Str(name), 0, ps.len() as int) {
        Some(i) => Some(ps[i].1),
        None => None,
    }
}

/// The integer stored under `name`, as [`integer_field`] reads it.
pub open spec fn value_integer_field(ps: Seq<(Value, Value)>, name: Seq<u8>) -> Result<i64, FieldError> {
    match value_field(ps, name) {
        Some(Value::Int(x)) => Ok(x),
        Some(_) => Err(FieldError::NotValid),
        None => Err(FieldError::NotFound),
    }
}

/// The byte string stored under `name`, as [`string_field`] reads it.
pub open spec fn value_string_field(ps: Seq<(Value, Value)>, name: Seq<u8>) -> Result<Seq<u8>, FieldError> {
    match value_field(ps, name) {
        Some(Value::Str(b)) => Ok(b),
        Some(_) => Err(FieldError::NotValid),
        None => Err(FieldError::NotFound),
    }
}

/// Where [`field`] finds a key in a dictionary is where it finds it among the
/// dictionary's values.
pub proof fn lemma_field_index(name: Seq<u8>, d: Dictionary)
    ensures
        keys_of(d.items@) == value_keys(pairs_values(d.items@)),
        field_index(name, d) == spec_search(
            value_keys(pairs_values(d.items@)),
            Value::Str(name),
            0,
            pairs_values(d.items@).len() as int,
        ),
        match field_index(name, d) {
            Some(i) => 0 <= i < d.items@.len() && value_field(pairs_values(d.items@), name) == Some(
                item_value(d.items@[i].1),
            ),
            None => value_field(pairs_values(d.items@), name) is None,
        },
{
    assert(keys_of(d.items@) =~= value_keys(pairs_values(d.items@)));
    super::lemma_search_found(keys_of(d.items@), Value::Str(name), 0, d.items@.len() as int);
}

} // verus!

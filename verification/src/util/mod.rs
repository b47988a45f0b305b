//! Helpers over bencoded data: lookup in a dictionary's pairs, SHA-1 and
//! percent-encoding.

use crate::bencode::order::{compare, value_order, Order};
use crate::bencode::{Item, Value};
use crate::text::{ascii_chars, lemma_percent_hex, percent_hex, push_percent_hex, string_from_ascii};
use sha1::{Digest, Sha1};
use vstd::prelude::*;

pub mod bencode;

verus! {

/// The key values of a sequence of pairs.
pub open spec fn keys_of<V>(xs: Seq<(Item, V)>) -> Seq<Value> {
    Seq::new(xs.len(), |i: int| xs[i].0@)
}

/// Where binary search over `keys[lo..hi]` finds `key`: it compares `key`
/// with the middle key and goes on in the half where `key` would be, and
/// stops at a key that equals it.
pub open spec fn spec_search(keys: Seq<Value>, key: Value, lo: int, hi: int) -> Option<int>
    decreases hi - lo,
{
    if lo >= hi {
        None
    } else {
        let mid = lo + (hi - lo) / 2;
        match value_order(keys[mid], key) {
            Order::Less => spec_search(keys, key, mid + 1, hi),
            Order::Greater => spec_search(keys, key, lo, mid),
            Order::Equal => Some(mid),
        }
    }
}

/// Whether the keys are in ascending order, equal keys allowed.
pub open spec fn sorted(keys: Seq<Value>) -> bool {
    forall|i: int, j: int| 0 <= i < j < keys.len() ==> value_order(keys[i], keys[j]) != Order::Greater
}

/// Looks `key` up by binary search among the pairs `xs` and gives the value
/// paired with the key found.
pub fn lookup<V>(xs: &Vec<(Item, V)>, key: Item) -> (r: Option<&V>)
    ensures
        match spec_search(keys_of(xs@), key@, 0, xs@.len() as int) {
            Some(i) => r == Some(&xs@[i].1),
            None => r is None,
        },
{
    let ghost keys = keys_of(xs@);
    let mut lo: usize = 0;
    let mut hi: usize = xs.len();
    while lo < hi
        invariant
            lo <= hi <= xs@.len(),
            keys == keys_of(xs@),
            spec_search(keys, key@, 0, xs@.len() as int) == spec_search(
                keys,
                key@,
                lo as int,
                hi as int,
            ),
        decreases hi - lo,
    {
        let mid = lo + (hi - lo) / 2;
        match compare(&xs[mid].0, &key) {
            Order::Less => lo = mid + 1,
            Order::Greater => hi = mid,
            Order::Equal => return Some(&xs[mid].1),
        }
    }
    None
}

/// A key that binary search finds equals the key looked for and lies in the
/// range searched.
pub proof fn lemma_search_found(keys: Seq<Value>, key: Value, lo: int, hi: int)
    ensures
        spec_search(keys, key, lo, hi) matches Some(i) ==> lo <= i < hi && keys[i] == key,
    decreases hi - lo,
{
    if lo < hi {
        let mid = lo + (hi - lo) / 2;
        crate::bencode::order::lemma_value_order(keys[mid], key);
        match value_order(keys[mid], key) {
            Order::Less => lemma_search_found(keys, key, mid + 1, hi),
            Order::Greater => lemma_search_found(keys, key, lo, mid),
            Order::Equal => {},
        }
    }
}

/// Among ascending keys, binary search finds every key that lies in the
/// range searched.
pub proof fn lemma_search_complete(keys: Seq<Value>, key: Value, lo: int, hi: int, j: int)
    requires
        sorted(keys),
        0 <= lo <= j < hi <= keys.len(),
        keys[j] == key,
    ensures
        spec_search(keys, key, lo, hi) is Some,
    decreases hi - lo,
{
    let mid = lo + (hi - lo) / 2;
    crate::bencode::order::lemma_value_order(keys[mid], key);
    crate::bencode::order::lemma_value_order(keys[j], keys[mid]);
    crate::bencode::order::lemma_value_order(keys[mid], keys[j]);
    match value_order(keys[mid], key) {
        Order::Less => {
            if j < mid {
                assert(value_order(keys[j], keys[mid]) != Order::Greater);
            }
            lemma_search_complete(keys, key, mid + 1, hi, j);
        },
        Order::Greater => {
            if j > mid {
                assert(value_order(keys[mid], keys[j]) != Order::Greater);
            }
            lemma_search_complete(keys, key, lo, mid, j);
        },
        Order::Equal => {},
    }
}

/// In pairs whose keys are in ascending order, equal keys allowed,
/// [`lookup`] finds a key exactly when it is one of the keys, and then gives
/// the value paired with one occurrence of it.
pub proof fn law_lookup_sorted<V>(xs: Seq<(Item, V)>, key: Value)
    requires
        sorted(keys_of(xs)),
    ensures
        spec_search(keys_of(xs), key, 0, xs.len() as int) is Some <==> exists|j: int|
            0 <= j < xs.len() && xs[j].0@ == key,
        spec_search(keys_of(xs), key, 0, xs.len() as int) matches Some(i) ==> xs[i].0@ == key,
{
    let keys = keys_of(xs);
    lemma_search_found(keys, key, 0, xs.len() as int);
    if exists|j: int| 0 <= j < xs.len() && xs[j].0@ == key {
        let j = choose|j: int| 0 <= j < xs.len() && xs[j].0@ == key;
        lemma_search_complete(keys, key, 0, xs.len() as int, j);
    }
}

/// The SHA-1 digest of `bytes`.
pub uninterp spec fn sha1_digest(bytes: Seq<u8>) -> Seq<u8>;

/// Hashes `bytes` with the `sha1` crate's `Sha1` (`new`, `update`,
/// `finalize`). The contract names the digest: it is a function of the bytes
/// alone; nothing more of SHA-1 is stated.
#[verifier::external_body]
fn sha1_hash(bytes: &[u8]) -> (r: [u8; 20])
    ensures
        r@ == sha1_digest(bytes@),
{
    let mut hasher = Sha1::new();
    hasher.update(bytes);
    hasher.finalize().into()
}

/// The SHA-1 digest of `bytes`.
pub fn sha1(bytes: Vec<u8>) -> (r: [u8; 20])
    ensures
        r@ == sha1_digest(bytes@),
{
    sha1_hash(bytes.as_slice())
}

/// Each byte as `%` and two lowercase hexadecimal digits.
pub fn percent_hex_string(array: &[u8]) -> (s: String)
    ensures
        s@ == ascii_chars(percent_hex(array@)),
{
    let mut out: Vec<u8> = Vec::new();
    push_percent_hex(&mut out, array);
    proof {
        lemma_percent_hex(array@);
        assert(out@ =~= percent_hex(array@));
    }
    string_from_ascii(out.as_slice())
}

} // verus!

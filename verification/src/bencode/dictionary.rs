//! Bencoded dictionaries: `d`, key-value pairs of items, `e`.

use super::{after, item, pairs_values, spec_dict_items, Failure, Item, Value};
use crate::decode;
use vstd::prelude::*;

verus! {

/// A dictionary: key-value pairs of items, in the order they were read.
#[derive(Debug, PartialEq, Eq, PartialOrd, Ord)]
pub struct Dictionary {
    pub items: Vec<(Item, Item)>,
}

/// Why a dictionary could not be parsed, beyond the errors of its items.
#[derive(Debug, PartialEq, Eq)]
pub enum Error {
    NoEnd,
}

/// Whether `r` is the outcome `expected` of parsing dictionary pairs from `s`.
pub open spec fn dict_outcome(
    s: Seq<u8>,
    expected: Result<(int, Seq<(Value, Value)>), Failure>,
    r: Result<(&[u8], Dictionary), super::Error>,
) -> bool {
    match expected {
        Ok((n, ps)) => r matches Ok((rest, d)) && rest@ == s.skip(n) && pairs_values(d.items@)
            == ps,
        Err(f) => r matches Err(e) && e.fails_as(f),
    }
}

/// Parses a dictionary if `input` starts with `d`; `None` if it does not.
pub fn try_parse(input: &[u8]) -> (r: Option<Result<(&[u8], Dictionary), super::Error>>)
    ensures
        !(input@.len() > 0 && input@[0] == 100) ==> r is None,
        input@.len() > 0 && input@[0] == 100 ==> (r matches Some(res) && dict_outcome(
            input@,
            after(spec_dict_items(input@.skip(1)), 1),
            res,
        )),
    decreases input@.len(), 0int,
{
    let rest = match decode::char(input, 100) {
        Ok(rest) => rest,
        Err(_) => return None,
    };
    let r = end(rest);
    proof {
        super::lemma_dict_consumes(rest@);
        if let Ok((n, ps)) = spec_dict_items(rest@) {
            assert(input@.skip(1).skip(n) =~= input@.skip(n + 1));
        }
    }
    Some(r)
}

/// Parses key-value pairs up to the closing `e`.
fn end(input: &[u8]) -> (r: Result<(&[u8], Dictionary), super::Error>)
    ensures
        dict_outcome(input@, spec_dict_items(input@), r),
    decreases input@.len(), 2int,
{
    let ghost whole = input@;
    let mut cur = input;
    let mut items: Vec<(Item, Item)> = Vec::new();
    while cur.len() == 0 || cur[0] != 101
        invariant
            whole == input@,
            cur@.len() <= whole.len(),
            cur@ == whole.skip(whole.len() - cur@.len()),
            spec_dict_items(whole) == (match spec_dict_items(cur@) {
                Ok((m, ps)) => Ok((whole.len() - cur@.len() + m, pairs_values(items@) + ps)),
                Err(f) => Err::<(int, Seq<(Value, Value)>), Failure>(f),
            }),
        decreases cur@.len(),
    {
        if cur.len() == 0 {
            return Err(super::Error::Dictionary(Error::NoEnd));
        }
        let ghost here = cur@;
        let (new, key) = match item(cur) {
            Ok(x) => x,
            Err(e) => return Err(e),
        };
        proof {
            super::lemma_item_consumes(here);
        }
        let ghost middle = new@;
        let (new, value) = match item(new) {
            Ok(x) => x,
            Err(e) => return Err(e),
        };
        proof {
            super::lemma_item_consumes(middle);
            let n1 = here.len() - middle.len();
            let n2 = middle.len() - new@.len();
            assert(middle == here.skip(n1));
            assert(here.skip(n1).skip(n2) =~= here.skip(n1 + n2));
            assert(whole.skip(whole.len() - here.len()).skip(n1 + n2) =~= whole.skip(
                whole.len() - new@.len(),
            ));
            let pre = pairs_values(items@);
            let kv = (super::item_value(key), super::item_value(value));
            assert(pairs_values(items@.push((key, value))) =~= pre.push(kv));
            if let Ok((m, ps)) = spec_dict_items(new@) {
                assert(pre.push(kv) + ps =~= pre + (seq![kv] + ps));
            }
        }
        items.push((key, value));
        cur = new;
    }
    proof {
        assert(pairs_values(items@) + seq![] =~= pairs_values(items@));
        assert(cur@.skip(1) =~= whole.skip(whole.len() - cur@.len() + 1));
    }
    Ok((&cur[1..cur.len()], Dictionary { items }))
}

} // verus!

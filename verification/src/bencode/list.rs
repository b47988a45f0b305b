//! Bencoded lists: `l`, items, `e`.

use super::{after, item, list_values, spec_list_items, Failure, Item, Value};
use crate::decode;
use vstd::prelude::*;

verus! {

/// The items of a list.
pub type List = Vec<Item>;

/// Why a list could not be parsed, beyond the errors of its items.
#[derive(Debug, PartialEq, Eq)]
pub enum Error {
    NoEnd,
}

/// Whether `r` is the outcome `expected` of parsing list items from `s`.
pub open spec fn list_outcome(
    s: Seq<u8>,
    expected: Result<(int, Seq<Value>), Failure>,
    r: Result<(&[u8], List), super::Error>,
) -> bool {
    match expected {
        Ok((n, vs)) => r matches Ok((rest, xs)) && rest@ == s.skip(n) && list_values(xs@) == vs,
        Err(f) => r matches Err(e) && e.fails_as(f),
    }
}

/// Parses a list if `input` starts with `l`; `None` if it does not.
pub fn try_parse(input: &[u8]) -> (r: Option<Result<(&[u8], List), super::Error>>)
    ensures
        !(input@.len() > 0 && input@[0] == 108) ==> r is None,
        input@.len() > 0 && input@[0] == 108 ==> (r matches Some(res) && list_outcome(
            input@,
            after(spec_list_items(input@.skip(1)), 1),
            res,
        )),
    decreases input@.len(), 0int,
{
    let rest = match decode::char(input, 108) {
        Ok(rest) => rest,
        Err(_) => return None,
    };
    let r = end(rest);
    proof {
        super::lemma_list_consumes(rest@);
        if let Ok((n, vs)) = spec_list_items(rest@) {
            assert(input@.skip(1).skip(n) =~= input@.skip(n + 1));
        }
    }
    Some(r)
}

/// Parses items up to the closing `e`.
fn end(input: &[u8]) -> (r: Result<(&[u8], List), super::Error>)
    ensures
        list_outcome(input@, spec_list_items(input@), r),
    decreases input@.len(), 2int,
{
    let ghost whole = input@;
    let mut cur = input;
    let mut items: List = Vec::new();
    while cur.len() == 0 || cur[0] != 101
        invariant
            whole == input@,
            cur@.len() <= whole.len(),
            cur@ == whole.skip(whole.len() - cur@.len()),
            spec_list_items(whole) == (match spec_list_items(cur@) {
                Ok((m, vs)) => Ok((whole.len() - cur@.len() + m, list_values(items@) + vs)),
                Err(f) => Err::<(int, Seq<Value>), Failure>(f),
            }),
        decreases cur@.len(),
    {
        if cur.len() == 0 {
            return Err(super::Error::List(Error::NoEnd));
        }
        let ghost here = cur@;
        let (new, value) = match item(cur) {
            Ok(x) => x,
            Err(e) => return Err(e),
        };
        proof {
            super::lemma_item_consumes(here);
            let n = here.len() - new@.len();
            assert(new@ == here.skip(n));
            assert(whole.skip(whole.len() - here.len()).skip(n) =~= whole.skip(
                whole.len() - new@.len(),
            ));
            let pre = list_values(items@);
            let v = super::item_value(value);
            assert(list_values(items@.push(value)) =~= pre.push(v));
            if let Ok((m, vs)) = spec_list_items(new@) {
                assert(pre.push(v) + vs =~= pre + (seq![v] + vs));
            }
        }
        items.push(value);
        cur = new;
    }
    proof {
        assert(list_values(items@) + seq![] =~= list_values(items@));
        assert(cur@.skip(1) =~= whole.skip(whole.len() - cur@.len() + 1));
    }
    Ok((&cur[1..cur.len()], items))
}

} // verus!

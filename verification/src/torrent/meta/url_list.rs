//! A list of URLs: a list item of byte strings.

use crate::bencode::string::shown_text;
use crate::bencode::{lemma_item_value, list_values, Item, Value};
use crate::text::strings_view;
use crate::util;
use vstd::prelude::*;

verus! {

/// Why a list of URLs could not be read.
#[derive(Debug, Clone, Copy, PartialEq, Eq, Structural)]
pub enum Error {
    NotList,
    ItemNotString,
}

/// What reading a list of URLs from `v` gives: the shown text of each byte
/// string, or an error if `v` is not a list or holds something else.
pub open spec fn spec_url_list(v: Value) -> Result<Seq<Seq<char>>, Error> {
    match v {
        Value::List(vs) => if forall|i: int| 0 <= i < vs.len() ==> #[trigger] vs[i] is Str {
            Ok(Seq::new(vs.len(), |i: int| shown_text(vs[i]->Str_0)))
        } else {
            Err(Error::ItemNotString)
        },
        _ => Err(Error::NotList),
    }
}

/// Reads a list of URLs.
pub fn try_parse(item: &Item) -> (r: Result<Vec<String>, Error>)
    ensures
        match spec_url_list(item@) {
            Ok(l) => r matches Ok(v) && strings_view(v@) == l,
            Err(e) => r == Err::<Vec<String>, Error>(e),
        },
{
    proof {
        lemma_item_value(*item);
    }
    let l = match util::bencode::list(item) {
        Some(l) => l,
        None => return Err(Error::NotList),
    };
    let ghost vs = list_values(l@);
    let mut out: Vec<String> = Vec::new();
    let mut i: usize = 0;
    while i < l.len()
        invariant
            i <= l@.len(),
            vs == list_values(l@),
            item@ == Value::List(vs),
            out@.len() == i,
            forall|j: int| 0 <= j < i ==> #[trigger] vs[j] is Str && out@[j]@ == shown_text(
                vs[j]->Str_0,
            ),
        decreases l@.len() - i,
    {
        match util::bencode::string(&l[i]) {
            Some(b) => {
                let text = b.debug_string();
                out.push(text);
            },
            None => {
                proof {
                    assert(!(vs[i as int] is Str));
                }
                return Err(Error::ItemNotString);
            },
        }
        i = i + 1;
    }
    proof {
        assert(strings_view(out@) =~= Seq::new(vs.len(), |i: int| shown_text(vs[i]->Str_0)));
    }
    Ok(out)
}

} // verus!

//! The tiers of trackers: a list of lists of URLs.

use super::url_list::{self, spec_url_list};
use crate::text::strings_view;
use crate::bencode::{lemma_item_value, list_values, Item, Value};
use crate::util;
use vstd::prelude::*;

verus! {

/// The tiers of tracker URLs.
pub type AnnounceList = Vec<Vec<String>>;

/// Why the tiers of trackers could not be read.
#[derive(Debug, Clone, Copy, PartialEq, Eq, Structural)]
pub enum Error {
    NotList,
    Item(url_list::Error),
}

/// The texts of the tiers.
pub open spec fn announce_list_view(v: Seq<Vec<String>>) -> Seq<Seq<Seq<char>>> {
    Seq::new(v.len(), |i: int| strings_view(v[i]@))
}

/// Whether the `i`th tier is the first that cannot be read.
pub open spec fn is_first_bad_tier(vs: Seq<Value>, i: int) -> bool {
    &&& 0 <= i < vs.len()
    &&& spec_url_list(vs[i]) is Err
    &&& forall|j: int| 0 <= j < i ==> #[trigger] spec_url_list(vs[j]) is Ok
}

/// What reading the tiers from `v` gives: each tier's URLs, or the error of
/// the first tier that cannot be read.
pub open spec fn spec_announce_list(v: Value) -> Result<Seq<Seq<Seq<char>>>, Error> {
    match v {
        Value::List(vs) => if exists|i: int| is_first_bad_tier(vs, i) {
            let i = choose|i: int| is_first_bad_tier(vs, i);
            Err(Error::Item(spec_url_list(vs[i])->Err_0))
        } else {
            Ok(Seq::new(vs.len(), |i: int| spec_url_list(vs[i])->Ok_0))
        },
        _ => Err(Error::NotList),
    }
}

/// Reads the tiers of trackers.
pub fn try_parse(item: &Item) -> (r: Result<AnnounceList, Error>)
    ensures
        match spec_announce_list(item@) {
            Ok(l) => r matches Ok(v) && announce_list_view(v@) == l,
            Err(e) => r == Err::<AnnounceList, Error>(e),
        },
{
    proof {
        lemma_item_value(*item);
    }
    let l = match util::bencode::list(item) {
        Some(l) => l,
        None => return Err(Error::NotList),
    };
    let ghost vs = list_values(l@);
    let mut out: AnnounceList = Vec::new();
    let mut i: usize = 0;
    while i < l.len()
        invariant
            i <= l@.len(),
            vs == list_values(l@),
            item@ == Value::List(vs),
            out@.len() == i,
            forall|j: int|
                0 <= j < i ==> #[trigger] spec_url_list(vs[j]) is Ok && strings_view(out@[j]@)
                    == spec_url_list(vs[j])->Ok_0,
        decreases l@.len() - i,
    {
        match url_list::try_parse(&l[i]) {
            Ok(urls) => out.push(urls),
            Err(e) => {
                proof {
                    assert(is_first_bad_tier(vs, i as int));
                    let k = choose|k: int| is_first_bad_tier(vs, k);
                    if k < i {
                        assert(spec_url_list(vs[k]) is Ok);
                    }
                    if k > i {
                        assert(spec_url_list(vs[i as int]) is Ok);
                    }
                }
                return Err(Error::Item(e));
            },
        }
        i = i + 1;
    }
    proof {
        if exists|k: int| is_first_bad_tier(vs, k) {
            let k = choose|k: int| is_first_bad_tier(vs, k);
            assert(spec_url_list(vs[k]) is Ok);
        }
        assert(announce_list_view(out@) =~= Seq::new(
            vs.len(),
            |i: int| spec_url_list(vs[i])->Ok_0,
        ));
    }
    Ok(out)
}

} // verus!

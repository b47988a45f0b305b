//! Torrent metainfo: the fields of a `.torrent` file's dictionary.

pub mod announce_list;
pub mod info;
pub mod url_list;

use self::announce_list::{announce_list_view, spec_announce_list, AnnounceList};
use self::url_list::spec_url_list;
use crate::text::strings_view;
use crate::bencode::string::shown_text;
use crate::bencode::{copy_item, lemma_item_value, Item, Value};
use crate::util::bencode::{
    dictionary, field, lemma_field_index, string_field, value_field, value_string_field,
    FieldError,
};
use vstd::prelude::*;
use vstd::string::StringSliceAdditionalSpecFns;

verus! {

/// The metainfo of a torrent.
pub struct Meta {
    pub announce: String,
    pub announce_list: Option<AnnounceList>,
    pub comment: (),
    pub created_by: (),
    pub creation_date: (),
    pub info: Item,
    pub url_list: Option<Vec<String>>,
}

/// What a [`Meta`] holds, as plain values.
pub struct MetaView {
    pub announce: Seq<char>,
    pub announce_list: Option<Seq<Seq<Seq<char>>>>,
    pub info: Value,
    pub url_list: Option<Seq<Seq<char>>>,
}

impl View for Meta {
    type V = MetaView;

    open spec fn view(&self) -> MetaView {
        MetaView {
            announce: self.announce@,
            announce_list: match self.announce_list {
                Some(l) => Some(announce_list_view(l@)),
                None => None,
            },
            info: self.info@,
            url_list: match self.url_list {
                Some(l) => Some(strings_view(l@)),
                None => None,
            },
        }
    }
}

/// Why the metainfo could not be read.
#[derive(Debug, PartialEq, Eq)]
pub enum Error {
    NotDictionary,
    Announce(FieldError),
    AnnounceList(announce_list::Error),
    Info(FieldError),
    UrlList(url_list::Error),
}

/// The tiers of trackers among the pairs `ps`: none if there is no
/// `announce-list` field, else what reading that field gives.
pub open spec fn spec_optional_announce_list(ps: Seq<(Value, Value)>) -> Result<
    Option<Seq<Seq<Seq<char>>>>,
    Error,
> {
    match value_field(ps, "announce-list".spec_bytes()) {
        None => Ok(None),
        Some(v) => match spec_announce_list(v) {
            Ok(l) => Ok(Some(l)),
            Err(e) => Err(Error::AnnounceList(e)),
        },
    }
}

/// The web seeds among the pairs `ps`: none if there is no `url-list` field,
/// else what reading that field gives.
pub open spec fn spec_optional_url_list(ps: Seq<(Value, Value)>) -> Result<
    Option<Seq<Seq<char>>>,
    Error,
> {
    match value_field(ps, "url-list".spec_bytes()) {
        None => Ok(None),
        Some(v) => match spec_url_list(v) {
            Ok(l) => Ok(Some(l)),
            Err(e) => Err(Error::UrlList(e)),
        },
    }
}

/// What reading the metainfo from `v` gives: its fields, or the error of the
/// first field, in the order announce, announce-list, info, url-list, that
/// cannot be read. The announce-list and url-list fields may be missing.
pub open spec fn spec_meta(v: Value) -> Result<MetaView, Error> {
    match v {
        Value::Dict(ps) => match value_string_field(ps, "announce".spec_bytes()) {
            Err(e) => Err(Error::Announce(e)),
            Ok(announce) => match spec_optional_announce_list(ps) {
                Err(e) => Err(e),
                Ok(announce_list) => match value_field(ps, "info".spec_bytes()) {
                    None => Err(Error::Info(FieldError::NotFound)),
                    Some(info) => match spec_optional_url_list(ps) {
                        Err(e) => Err(e),
                        Ok(url_list) => Ok(
                            MetaView {
                                announce: shown_text(announce),
                                announce_list,
                                info,
                                url_list,
                            },
                        ),
                    },
                },
            },
        },
        _ => Err(Error::NotDictionary),
    }
}

/// Reads the metainfo from the top item of a `.torrent` file.
pub fn extract(item: &Item) -> (r: Result<Meta, Error>)
    ensures
        match spec_meta(item@) {
            Ok(v) => r matches Ok(meta) && meta@ == v,
            Err(e) => r == Err::<Meta, Error>(e),
        },
{
    let d = match dictionary(item) {
        Some(d) => d,
        None => return Err(Error::NotDictionary),
    };
    proof {
        lemma_item_value(*item);
        lemma_field_index("announce".spec_bytes(), *d);
        lemma_field_index("announce-list".spec_bytes(), *d);
        lemma_field_index("info".spec_bytes(), *d);
        lemma_field_index("url-list".spec_bytes(), *d);
    }
    let announce = match string_field("announce", d) {
        Ok(b) => b.debug_string(),
        Err(e) => return Err(Error::Announce(e)),
    };
    let announce_list = match field("announce-list", d) {
        Ok(x) => match announce_list::try_parse(x) {
            Ok(l) => Some(l),
            Err(e) => return Err(Error::AnnounceList(e)),
        },
        Err(_) => None,
    };
    let info = match field("info", d) {
        Ok(x) => copy_item(x),
        Err(e) => return Err(Error::Info(e)),
    };
    let url_list = match field("url-list", d) {
        Ok(x) => match url_list::try_parse(x) {
            Ok(l) => Some(l),
            Err(e) => return Err(Error::UrlList(e)),
        },
        Err(_) => None,
    };
    Ok(
        Meta {
            announce,
            announce_list,
            comment: (),
            created_by: (),
            creation_date: (),
            info,
            url_list,
        },
    )
}

} // verus!

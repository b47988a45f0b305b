//! The `info` dictionary of a torrent: what is downloaded and how it is cut
//! into pieces.

use crate::bencode::string::shown_text;
use crate::bencode::{lemma_item_value, pairs_values, Item, Value};
use crate::util::bencode::{
    dictionary, integer_field, lemma_field_index, string_field, value_integer_field,
    value_string_field, FieldError,
};
use vstd::prelude::*;
use vstd::string::StringSliceAdditionalSpecFns;

verus! {

/// The description of the downloaded file.
pub struct Info {
    pub length: i64,
    pub name: String,
    pub piece_length: i64,
    pub pieces: Vec<[u8; 20]>,
}

/// What an [`Info`] holds, as plain values.
pub struct InfoView {
    pub length: i64,
    pub name: Seq<char>,
    pub piece_length: i64,
    pub pieces: Seq<Seq<u8>>,
}

impl View for Info {
    type V = InfoView;

    open spec fn view(&self) -> InfoView {
        InfoView {
            length: self.length,
            name: self.name@,
            piece_length: self.piece_length,
            pieces: Seq::new(self.pieces@.len(), |i: int| self.pieces@[i]@),
        }
    }
}

/// Why the `info` dictionary could not be read.
#[derive(Debug, PartialEq, Eq)]
pub enum Error {
    NotDictionary,
    Length(FieldError),
    Name(FieldError),
    PieceLength(FieldError),
    Pieces(FieldError),
}

/// The 20-byte piece hashes that `b` holds one after the other; bytes left
/// over after the last whole hash are dropped.
pub open spec fn piece_hashes(b: Seq<u8>) -> Seq<Seq<u8>> {
    Seq::new(b.len() / 20, |i: int| b.subrange(20 * i, 20 * i + 20))
}

/// What reading the `info` dictionary from `v` gives: its fields, or the
/// error of the first field, in the order length, name, piece length,
/// pieces, that is missing or of the wrong kind.
pub open spec fn spec_info(v: Value) -> Result<InfoView, Error> {
    match v {
        Value::Dict(ps) => match value_integer_field(ps, "length".spec_bytes()) {
            Err(e) => Err(Error::Length(e)),
            Ok(length) => match value_string_field(ps, "name".spec_bytes()) {
                Err(e) => Err(Error::Name(e)),
                Ok(name) => match value_integer_field(ps, "piece length".spec_bytes()) {
                    Err(e) => Err(Error::PieceLength(e)),
                    Ok(piece_length) => match value_string_field(ps, "pieces".spec_bytes()) {
                        Err(e) => Err(Error::Pieces(e)),
                        Ok(pieces) => Ok(
                            InfoView {
                                length,
                                name: shown_text(name),
                                piece_length,
                                pieces: piece_hashes(pieces),
                            },
                        ),
                    },
                },
            },
        },
        _ => Err(Error::NotDictionary),
    }
}

/// Cuts `b` into 20-byte hashes.
fn hashes(b: &Vec<u8>) -> (r: Vec<[u8; 20]>)
    ensures
        r@.len() == b@.len() / 20,
        forall|i: int| 0 <= i < r@.len() ==> (#[trigger] r@[i])@ == b@.subrange(20 * i, 20 * i + 20),
{
    let n = b.len() / 20;
    let mut out: Vec<[u8; 20]> = Vec::new();
    let mut k: usize = 0;
    while k < n
        invariant
            n == b@.len() / 20,
            k <= n,
            out@.len() == k,
            forall|i: int| 0 <= i < k ==> (#[trigger] out@[i])@ == b@.subrange(20 * i, 20 * i + 20),
        decreases n - k,
    {
        assert(20 * k + 20 <= b@.len()) by (nonlinear_arith)
            requires
                k < n,
                n == b@.len() / 20,
        ;
        assert(b@.len() == b.len());
        let base = 20 * k;
        let mut h = [0u8; 20];
        let mut j: usize = 0;
        while j < 20
            invariant
                base == 20 * k,
                base + 20 <= b@.len(),
                b@.len() == b.len(),
                j <= 20,
                forall|t: int| 0 <= t < j ==> h@[t] == b@[base + t],
            decreases 20 - j,
        {
            h[j] = b[base + j];
            j = j + 1;
        }
        proof {
            assert(h@ =~= b@.subrange(20 * k, 20 * k + 20));
        }
        out.push(h);
        k = k + 1;
    }
    out
}

/// Reads the `info` dictionary.
pub fn extract(item: &Item) -> (r: Result<Info, Error>)
    ensures
        match spec_info(item@) {
            Ok(v) => r matches Ok(info) && info@ == v,
            Err(e) => r == Err::<Info, Error>(e),
        },
{
    let d = match dictionary(item) {
        Some(d) => d,
        None => return Err(Error::NotDictionary),
    };
    proof {
        lemma_item_value(*item);
        lemma_field_index("length".spec_bytes(), *d);
        lemma_field_index("name".spec_bytes(), *d);
        lemma_field_index("piece length".spec_bytes(), *d);
        lemma_field_index("pieces".spec_bytes(), *d);
    }
    let length = match integer_field("length", d) {
        Ok(x) => x,
        Err(e) => return Err(Error::Length(e)),
    };
    let name = match string_field("name", d) {
        Ok(b) => b.debug_string(),
        Err(e) => return Err(Error::Name(e)),
    };
    let piece_length = match integer_field("piece length", d) {
        Ok(x) => x,
        Err(e) => return Err(Error::PieceLength(e)),
    };
    let pieces = match string_field("pieces", d) {
        Ok(b) => hashes(&b.bytes),
        Err(e) => return Err(Error::Pieces(e)),
    };
    let info = Info { length, name, piece_length, pieces };
    proof {
        assert(info@.pieces =~= piece_hashes(
            value_string_field(pairs_values(d.items@), "pieces".spec_bytes())->Ok_0,
        ));
    }
    Ok(info)
}

} // verus!

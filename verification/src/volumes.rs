//! The volumes collection: a set of path tokens carried as a set-as-map
//! object. A path key is taken verbatim — the token grammar accepts every
//! string.

use vstd::prelude::*;
use vstd::string::StringExecFns;

use crate::errors::ParseError;
use crate::json::Json;
use crate::json::json_model;
use crate::json::sc_val;
use crate::json::spec_parse_text;
use crate::setmap::SetMapToken;
use crate::setmap::spec_set_map_decode;
use crate::setmap::spec_set_map_obj;

verus! {

impl SetMapToken for String {
    open spec fn wf_model(m: Seq<char>) -> bool {
        true
    }

    open spec fn spec_key(m: Seq<char>) -> Seq<char> {
        m
    }

    open spec fn spec_parse(key: Seq<char>) -> Option<Seq<char>> {
        Some(key)
    }

    proof fn parse_wf(key: Seq<char>) {
    }

    proof fn key_round_trip(m: Seq<char>) {
    }

    fn render_key(&self) -> (r: String) {
        self.clone()
    }

    fn parse_key(key: &str) -> (r: Result<String, ParseError>) {
        Ok(String::from_str(key))
    }

    fn same(&self, other: &Self) -> (r: bool) {
        self.eq(other)
    }
}

/// The declared volumes: path strings, kept in insertion order. The encoder
/// emits keys in this stored order, deterministically.
#[derive(Debug)]
pub struct Volumes(pub Vec<String>);

impl DeepView for Volumes {
    type V = Seq<Seq<char>>;

    open spec fn deep_view(&self) -> Seq<Seq<char>> {
        self.0.deep_view()
    }
}

/// A well-formed collection: no path twice.
pub open spec fn volumes_wf(v: Volumes) -> bool {
    forall|i: int, j: int| 0 <= i < j < v.0@.len() ==> v.0@[i]@ != v.0@[j]@
}

impl Volumes {
    /// Encodes the collection as its wire object: each path mapped to an
    /// empty object.
    pub fn to_json(&self) -> (r: Json)
        ensures
            json_model(r) == spec_set_map_obj::<String>(self.deep_view()),
    {
        crate::setmap::set_map_encode(&self.0)
    }

    /// Decodes a wire value into the collection: the keys are taken
    /// verbatim, the attached values are ignored, and duplicate paths
    /// collapse to their first occurrence.
    pub fn from_json(j: &Json) -> (r: Result<Volumes, ParseError>)
        ensures
            match r {
                Ok(v) => spec_set_map_decode::<String>(json_model(*j)) == Some(v.deep_view())
                    && volumes_wf(v),
                Err(e) => spec_set_map_decode::<String>(json_model(*j)) is None && (match
                json_model(*j) {
                    crate::json::JsonModel::Obj(_) => e is CodecError,
                    _ => e is SchemaError,
                }),
            },
    {
        match crate::setmap::set_map_decode::<String>(j, "volumes") {
            Ok(paths) => {
                proof {
                    assert forall|i: int, k: int| 0 <= i < k < paths@.len() implies paths@[i]@
                        != paths@[k]@ by {
                        assert(paths@[i].deep_view() == paths@[i]@);
                        assert(paths@[k].deep_view() == paths@[k]@);
                    }
                }
                Ok(Volumes(paths))
            },
            Err(e) => Err(e),
        }
    }

    /// Renders the collection as compact wire text.
    pub fn to_json_string(&self) -> (r: String)
        ensures
            r@ == sc_val(spec_set_map_obj::<String>(self.deep_view())),
    {
        let j = self.to_json();
        crate::json::to_compact_string(&j)
    }

    /// Reads the collection from wire text.
    pub fn from_json_str(s: &str) -> (r: Result<Volumes, ParseError>)
        ensures
            match r {
                Ok(v) => {
                    &&& spec_parse_text(s@) matches Some(m)
                    &&& spec_set_map_decode::<String>(m) == Some(v.deep_view())
                    &&& volumes_wf(v)
                },
                Err(e) => match spec_parse_text(s@) {
                    Some(m) => spec_set_map_decode::<String>(m) is None && (e is CodecError
                        || e is SchemaError),
                    None => e is StructuralError,
                },
            },
    {
        match crate::json::parse_text(s) {
            Ok(j) => Volumes::from_json(&j),
            Err(e) => Err(e),
        }
    }
}

} // verus!

//! The self-delimiting payload encoding used inside write-ahead-log records.
//! Values are carried as JSON, produced and parsed by serde_json; this module
//! holds the only trusted items of the crate.
//!
//! `json_obj_of` and `json_str_of` name what the serializer returns. Both are
//! functions of their argument alone: the serializer's map is backed by an
//! ordered map keyed by the column name, so pair order cannot leak into the
//! text, and a plain string has exactly one compact serialization.

use vstd::prelude::*;

use crate::assoc::map_of;
use crate::row::pair_views;
use crate::strutil::sep_free;

verus! {

/// The compact JSON text of a string-to-string object.
pub uninterp spec fn json_obj_of(m: Map<Seq<char>, Seq<char>>) -> Seq<char>;

/// The compact JSON text of a single string.
pub uninterp spec fn json_str_of(s: Seq<char>) -> Seq<char>;

/// Relies on serde_json::to_string over serde_json::Map, which is backed by
/// an ordered map: the text depends only on the key/value map (a repeated key
/// keeps its last value, as the map does), and the serializer escapes every
/// control character, so the text holds no newline.
#[verifier::external_body]
pub fn json_encode_pairs(pairs: &Vec<(String, String)>) -> (r: String)
    ensures
        r@ == json_obj_of(map_of(pair_views(pairs@))),
        sep_free(r@, '\n'),
{
    let mut m = serde_json::Map::new();
    for (k, v) in pairs.iter() {
        m.insert(k.clone(), serde_json::Value::String(v.clone()));
    }
    serde_json::to_string(&m).expect("string maps always serialize")
}

/// Relies on serde_json::from_str over serde_json::Map: parsing text the
/// serializer produced for a string-to-string object yields that object back,
/// every value again a string.
#[verifier::external_body]
pub fn json_decode_pairs(s: &str) -> (r: Option<Vec<(String, String)>>)
    ensures
        match r {
            Some(v) => forall|m: Map<Seq<char>, Seq<char>>|
                s@ == json_obj_of(m) ==> map_of(pair_views(v@)) == m,
            None => forall|m: Map<Seq<char>, Seq<char>>| s@ != json_obj_of(m),
        },
{
    let parsed: serde_json::Map<String, serde_json::Value> = match serde_json::from_str(s) {
        Ok(p) => p,
        Err(_) => return None,
    };
    let mut out: Vec<(String, String)> = Vec::new();
    for (k, v) in parsed {
        match v {
            serde_json::Value::String(sv) => out.push((k, sv)),
            _ => return None,
        }
    }
    Some(out)
}

/// Relies on serde_json::to_string over &str: one string has one compact
/// JSON serialization, with every control character escaped.
#[verifier::external_body]
pub fn json_encode_value(v: &str) -> (r: String)
    ensures
        r@ == json_str_of(v@),
        sep_free(r@, '\n'),
{
    serde_json::to_string(v).expect("strings always serialize")
}

/// Relies on serde_json::from_str over String: parsing the serialization of
/// a string yields that string back.
#[verifier::external_body]
pub fn json_decode_value(s: &str) -> (r: Option<String>)
    ensures
        match r {
            Some(x) => forall|v: Seq<char>| s@ == json_str_of(v) ==> x@ == v,
            None => forall|v: Seq<char>| s@ != json_str_of(v),
        },
{
    serde_json::from_str::<String>(s).ok()
}

} // verus!

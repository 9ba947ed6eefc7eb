//! Trusted boundary to the JSON parser.
//!
//! Both metadata sources that carry JSON — the peer name-mapping blob and
//! JSON-shaped peer comments — are objects whose values are all strings,
//! so one wrapper serves both.

use vstd::prelude::*;
use std::collections::BTreeMap;

verus! {

/// The entries of `s` read as a JSON object of strings, in ascending key
/// order; `None` when `s` is not such an object. The value is fixed by
/// the text alone.
pub uninterp spec fn json_string_object(s: Seq<char>) -> Option<Seq<(Seq<char>, Seq<char>)>>;

/// Relies on `serde_json::from_str::<BTreeMap<String, String>>`: succeeds
/// exactly on a JSON object whose values are all strings, and iterating
/// the map yields each key once, in ascending key order, so the outcome
/// depends on the text alone.
#[verifier::external_body]
pub fn parse_json_string_object(s: &str) -> (r: Option<Vec<(String, String)>>)
    ensures
        match r {
            Some(v) => json_string_object(s@)
                == Some(v@.map_values(|p: (String, String)| (p.0@, p.1@)))
                && (forall|i: int, j: int| 0 <= i < j < v@.len() ==> v@[i].0@ != v@[j].0@),
            None => json_string_object(s@) is None,
        },
{
    match serde_json::from_str::<BTreeMap<String, String>>(s) {
        Ok(m) => Some(m.into_iter().collect()),
        Err(_) => None,
    }
}

} // verus!

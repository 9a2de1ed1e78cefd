//! Persisted subscriber records.
//!
//! A subscriber record holds the branch names already reported to one
//! subscriber for one tracked change, serialized as a JSON array of
//! strings. The surrounding service owns the files (one directory per
//! change, one file per subscriber); this module fixes the format and the
//! round trip.

use vstd::prelude::*;

use crate::names::views;

verus! {

/// The JSON rendering of a list of branch names.
pub uninterp spec fn json_of(names: Seq<Seq<char>>) -> Seq<char>;

/// What parsing a subscriber record yields: the recorded names, or
/// nothing when the text is not a JSON array of strings.
pub uninterp spec fn json_names(s: Seq<char>) -> Option<Seq<Seq<char>>>;

/// Relies on serde_json::to_string: serializing a vector of strings
/// cannot fail, the text depends on the names alone, and
/// serde_json::from_str parses it back to the same names.
#[verifier::external_body]
fn to_json(names: &Vec<String>) -> (r: String)
    ensures
        r@ == json_of(views(names@)),
        json_names(r@) == Some(views(names@)),
{
    serde_json::to_string(names).unwrap()
}

/// Relies on serde_json::from_str: parsing depends on the text alone and
/// yields the recorded strings exactly when the text is a JSON array of
/// strings.
#[verifier::external_body]
fn from_json(s: &str) -> (r: Option<Vec<String>>)
    ensures
        match r {
            Some(v) => json_names(s@) == Some(views(v@)),
            None => json_names(s@) is None,
        },
{
    serde_json::from_str(s).ok()
}

/// Renders a subscriber record: text whose parse yields exactly `names`,
/// so a record written after a successful notification reads back as the
/// set that was reported.
pub fn render_record(names: &Vec<String>) -> (r: String)
    ensures
        r@ == json_of(views(names@)),
        json_names(r@) == Some(views(names@)),
{
    to_json(names)
}

/// Parses a subscriber record; `None` exactly when the text is not a JSON
/// array of strings (a corrupt record is isolated to its subscriber).
pub fn parse_record(s: &str) -> (r: Option<Vec<String>>)
    ensures
        match r {
            Some(v) => json_names(s@) == Some(views(v@)),
            None => json_names(s@) is None,
        },
{
    from_json(s)
}

} // verus!

//! Reading the raw dictionary: a JSON object whose members map chord text
//! to output text.
use std::collections::BTreeMap;
use vstd::prelude::*;

verus! {

#[verifier::external_type_specification]
#[verifier::external_body]
pub struct ExJsonError(serde_json::Error);

/// The members of the JSON object that `text` holds, each a name and a
/// string value, in ascending order of the names; `None` if `text` is not
/// one JSON object of strings.
pub uninterp spec fn json_object_pairs(text: Seq<char>) -> Option<Seq<(Seq<char>, Seq<char>)>>;

/// The texts of a list of pairs of strings.
pub open spec fn pair_texts(pairs: Seq<(String, String)>) -> Seq<(Seq<char>, Seq<char>)> {
    pairs.map_values(|p: (String, String)| (p.0@, p.1@))
}

/// Calls `serde_json::from_str` to read `text` as a map from strings to
/// strings, and hands the members out in the order of the map. Nothing is
/// proved of it: the contract gives the outcome its name, `json_object_pairs`,
/// and says that the call fails exactly when there is no such outcome.
#[verifier::external_body]
pub(crate) fn parse_json_object(text: &str) -> (r: Result<Vec<(String, String)>, serde_json::Error>)
    ensures
        match r {
            Ok(pairs) => json_object_pairs(text@) == Some(pair_texts(pairs@)),
            Err(_) => json_object_pairs(text@) is None,
        },
{
    let parsed: Result<BTreeMap<String, String>, serde_json::Error> = serde_json::from_str(text);
    match parsed {
        Ok(members) => Ok(members.into_iter().collect()),
        Err(e) => Err(e),
    }
}

} // verus!

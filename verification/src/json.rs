//! Attributes as JSON text, by way of the `serde_json` crate.
use std::collections::BTreeMap;
use vstd::prelude::*;

use crate::text::text_before;

verus! {

/// What can go wrong in `serde_json`.
#[verifier::external_type_specification]
#[verifier::external_body]
pub struct ExJsonError(serde_json::Error);

/// Keys and values of a list of pairs.
pub open spec fn pair_views(pairs: Seq<(String, String)>) -> Seq<(Seq<char>, Seq<char>)> {
    pairs.map_values(|pair: (String, String)| (pair.0@, pair.1@))
}

/// Whether every key comes before the keys after it.
pub open spec fn keys_in_order(pairs: Seq<(Seq<char>, Seq<char>)>) -> bool {
    forall|i: int, j: int| 0 <= i < j < pairs.len() ==> text_before(
        (#[trigger] pairs[i]).0,
        (#[trigger] pairs[j]).0,
    )
}

/// The JSON object that `serde_json::to_string` writes for a string map with
/// the given entries.
pub uninterp spec fn json_text(pairs: Seq<(Seq<char>, Seq<char>)>) -> Seq<char>;

/// The entries, in key order, of the string map that `serde_json::from_str`
/// reads from a text, if it reads one.
pub uninterp spec fn json_pairs(text: Seq<char>) -> Option<Seq<(Seq<char>, Seq<char>)>>;

/// `serde_json::to_string` of a `BTreeMap` with the given entries. Writing a map
/// with string keys into memory does not fail, and reading the text gives the
/// entries back; both are taken from the crate's source and documentation.
#[verifier::external_body]
pub(crate) fn write_json(pairs: &Vec<(String, String)>) -> (r: Result<String, serde_json::Error>)
    requires
        keys_in_order(pair_views(pairs@)),
    ensures
        r is Ok,
        r->Ok_0@ == json_text(pair_views(pairs@)),
        json_pairs(r->Ok_0@) == Some(pair_views(pairs@)),
{
    let map: BTreeMap<&String, &String> = pairs.iter().map(|pair| (&pair.0, &pair.1)).collect();
    serde_json::to_string(&map)
}

/// `serde_json::from_str` into a `BTreeMap` from strings to strings, handed out
/// entry by entry; a `BTreeMap` hands its entries out in key order.
#[verifier::external_body]
pub(crate) fn read_json(text: &str) -> (r: Result<Vec<(String, String)>, serde_json::Error>)
    ensures
        match r {
            Ok(pairs) => json_pairs(text@) == Some(pair_views(pairs@)) && keys_in_order(
                pair_views(pairs@),
            ),
            Err(_) => json_pairs(text@) is None,
        },
{
    let map: BTreeMap<String, String> = serde_json::from_str(text)?;
    Ok(map.into_iter().collect())
}

} // verus!

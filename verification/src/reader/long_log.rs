//! The log of long URLs: for each hash, where the URL first appears in the
//! source file and how long it is, kept as a JSON object between the reading
//! and the ranking.

use std::collections::HashMap;
use vstd::prelude::*;

verus! {

/// The map that the JSON text `text` denotes when `serde_json` reads it as a
/// map from `u64` keys to pairs of `u64` (an object whose keys are decimal
/// numbers in quotes and whose values are two-element arrays); `None` when
/// it does not read.
pub uninterp spec fn json_long_log(text: Seq<char>) -> Option<Map<u64, (u64, u64)>>;

/// Calls `serde_json::from_str::<HashMap<u64, (u64, u64)>>`.  The contract
/// claims that the call succeeds exactly when the text denotes such a map,
/// and that the map it returns is that map; which map a text denotes is left
/// to the name `json_long_log`.
#[verifier::external_body]
fn parse_long_log(text: &str) -> (r: Result<HashMap<u64, (u64, u64)>, serde_json::Error>)
    ensures
        r is Ok <==> json_long_log(text@) is Some,
        r matches Ok(m) ==> json_long_log(text@) == Some(m@),
{
    serde_json::from_str::<HashMap<u64, (u64, u64)>>(text)
}

/// The log with its positions and lengths widened to `u64`.
pub open spec fn widen_log(m: Map<u64, (usize, usize)>) -> Map<u64, (u64, u64)> {
    m.map_values(|p: (usize, usize)| (p.0 as u64, p.1 as u64))
}

/// Calls `serde_json::to_string` on the map of long URLs.  The contract
/// claims that printing succeeds (integer keys print as quoted decimals and
/// pairs as arrays, into a growing buffer, which cannot fail) and that
/// `serde_json` reads the text back as the same map.  The text itself, whose
/// order of entries follows the walk of the hash map, is left unsaid.
#[verifier::external_body]
fn print_long_log_json(m: &HashMap<u64, (usize, usize)>) -> (r: Result<String, serde_json::Error>)
    ensures
        r is Ok,
        r matches Ok(t) ==> json_long_log(t@) == Some(widen_log(m@)),
{
    serde_json::to_string(m)
}

/// Reads the log of long URLs from its text: the map it denotes, or `None`
/// when the text is no such map.
pub fn read_long_log(text: &str) -> (r: Option<HashMap<u64, (u64, u64)>>)
    ensures
        match r {
            Some(m) => json_long_log(text@) == Some(m@),
            None => json_long_log(text@) is None,
        },
{
    match parse_long_log(text) {
        Ok(m) => Some(m),
        Err(_) => None,
    }
}

/// The text of the log of long URLs, which reads back as the same map.
pub fn print_long_log(m: &HashMap<u64, (usize, usize)>) -> (r: String)
    ensures
        json_long_log(r@) == Some(widen_log(m@)),
{
    match print_long_log_json(m) {
        Ok(t) => t,
        Err(_) => {
            assert(false);
            String::new()
        },
    }
}

/// Where a long URL with hash `h` stands in the source file, and its length:
/// the entry of the log, or `None` when the log has none.
pub fn long_url_place(log: &HashMap<u64, (u64, u64)>, h: u64) -> (r: Option<(u64, u64)>)
    ensures
        r == (if log@.contains_key(h) {
            Some(log@[h])
        } else {
            None
        }),
{
    broadcast use vstd::std_specs::hash::group_hash_axioms;

    match log.get(&h) {
        Some(p) => Some(*p),
        None => None,
    }
}

} // verus!

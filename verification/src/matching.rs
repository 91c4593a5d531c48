use vstd::prelude::*;

use crate::entry::{DesktopEntryBase, EntryView, ParsedEntry, ParsedView};
use crate::textops::{is_substring, lower_of, str_contains, to_lowercase};

verus! {

/// The matching policy of a live scan: the lower-cased query must occur in
/// the lower-cased `name`; a record without a `name` is tested on its
/// `generic_name` instead; a record with neither never matches, whatever its
/// `comment` holds.
pub open spec fn live_match(p: ParsedView, q_lower: Seq<char>) -> bool {
    match p.name {
        Some(n) => is_substring(q_lower, lower_of(n)),
        None => match p.generic_name {
            Some(g) => is_substring(q_lower, lower_of(g)),
            None => false,
        },
    }
}

/// The matching policy of a cache-backed search: the fields are tried in the
/// fixed order `name`, `generic_name`, `comment`, and the first one present
/// on the record is the only one tested. The query matches exactly when the
/// lower-cased query occurs in the lower-cased tested field.
pub open spec fn cached_match(e: EntryView, q_lower: Seq<char>) -> bool {
    if is_substring(q_lower, lower_of(e.name)) {
        true
    } else {
        match e.generic_name {
            Some(g) => is_substring(q_lower, lower_of(g)),
            None => match e.comment {
                Some(c) => is_substring(q_lower, lower_of(c)),
                None => false,
            },
        }
    }
}

/// Decides the live-scan policy for one parsed record. `q_lower` is the
/// already lower-cased query.
pub fn live_match_exec(p: &ParsedEntry, q_lower: &str) -> (r: bool)
    ensures
        r == live_match(p@, q_lower@),
{
    match &p.name {
        Some(n) => {
            let n_lower = to_lowercase(n.as_str());
            str_contains(n_lower.as_str(), q_lower)
        },
        None => match &p.generic_name {
            Some(g) => {
                let g_lower = to_lowercase(g.as_str());
                str_contains(g_lower.as_str(), q_lower)
            },
            None => false,
        },
    }
}

/// Decides the cache-path policy for one stored record. `q_lower` is the
/// already lower-cased query.
pub fn cached_match_exec(e: &DesktopEntryBase, q_lower: &str) -> (r: bool)
    ensures
        r == cached_match(e@, q_lower@),
{
    let n_lower = to_lowercase(e.name.as_str());
    if str_contains(n_lower.as_str(), q_lower) {
        true
    } else {
        match &e.generic_name {
            Some(g) => {
                let g_lower = to_lowercase(g.as_str());
                str_contains(g_lower.as_str(), q_lower)
            },
            None => match &e.comment {
                Some(c) => {
                    let c_lower = to_lowercase(c.as_str());
                    str_contains(c_lower.as_str(), q_lower)
                },
                None => false,
            },
        }
    }
}

/// A present `generic_name` shadows the `comment`: a record whose `name`
/// does not contain the query and whose `generic_name` is present but does
/// not contain it either is excluded from a cache-backed search, even when
/// its `comment` does contain the query.
pub proof fn lemma_generic_name_shadows_comment(e: EntryView, q_lower: Seq<char>, g: Seq<char>)
    requires
        !is_substring(q_lower, lower_of(e.name)),
        e.generic_name == Some(g),
        !is_substring(q_lower, lower_of(g)),
    ensures
        !cached_match(e, q_lower),
{
}

} // verus!

//! Filter descent: deciding, key by key, whether a key is kept, which
//! subfilter its value is parsed with, and whether the filter marks it as
//! an array-valued key.

use vstd::prelude::*;
use crate::value::{filter_entries_view, Filter, SpecFilter};

verus! {

/// First-match lookup among the entries of a filter object.
pub open spec fn filter_entry(entries: Seq<(Seq<char>, SpecFilter)>, key: Seq<char>) -> Option<
    SpecFilter,
>
    decreases entries.len(),
{
    if entries.len() == 0 {
        None
    } else if entries[0].0 == key {
        Some(entries[0].1)
    } else {
        filter_entry(entries.drop_first(), key)
    }
}

/// The filter entry a key selects: the key's own entry if listed, else
/// the `"*"` wildcard entry if present (listed keys win over the
/// wildcard), else nothing.  Only filter objects select entries.
pub open spec fn filter_for_key(f: SpecFilter, key: Seq<char>) -> Option<SpecFilter> {
    match f {
        SpecFilter::Object(entries) => match filter_entry(entries, key) {
            Some(sub) => Some(sub),
            None => filter_entry(entries, "*"@),
        },
        _ => None,
    }
}

/// Does the filter keep this key?  `Bool(true)` keeps every key; a filter
/// object keeps the keys it lists and, through `"*"`, all keys if the
/// wildcard is present.
pub open spec fn spec_is_key_included(key: Seq<char>, f: SpecFilter) -> bool {
    match f {
        SpecFilter::Bool(b) => b,
        SpecFilter::Object(_) => filter_for_key(f, key) is Some,
        SpecFilter::Array(_) => false,
    }
}

/// The subfilter a kept key's value is parsed with.
pub open spec fn spec_next_filter(key: Seq<char>, f: SpecFilter) -> SpecFilter {
    match f {
        SpecFilter::Bool(_) => f,
        _ => match filter_for_key(f, key) {
            Some(sub) => sub,
            None => SpecFilter::Bool(false),
        },
    }
}

/// The subfilter for the elements of a block that is an array.  A boolean
/// filter applies unchanged; an array filter contributes its first
/// element, or `Bool(false)` if it is empty; a filter object passes
/// through, so objects nested in an array keep their key selection.
pub open spec fn spec_next_filter_array(f: SpecFilter) -> SpecFilter {
    match f {
        SpecFilter::Bool(_) => f,
        SpecFilter::Array(elems) => if elems.len() > 0 {
            elems[0]
        } else {
            SpecFilter::Bool(false)
        },
        SpecFilter::Object(_) => f,
    }
}

/// Does the filter mark this key as array-valued?
pub open spec fn spec_is_key_array(key: Seq<char>, f: SpecFilter) -> bool {
    filter_for_key(f, key) matches Some(SpecFilter::Array(_))
}

/// Finds the first entry of `entries` whose key is `key`.
fn filter_entry_exec<'a>(entries: &'a Vec<(String, Filter)>, key: &String) -> (r: Option<
    &'a Filter,
>)
    ensures
        match r {
            Some(f) => filter_entry(filter_entries_view(entries@), key@) == Some(f@),
            None => filter_entry(filter_entries_view(entries@), key@) is None,
        },
{
    let ghost es = filter_entries_view(entries@);
    assert(es.skip(0) =~= es);
    let mut i: usize = 0;
    while i < entries.len()
        invariant
            0 <= i <= entries@.len(),
            es == filter_entries_view(entries@),
            filter_entry(es, key@) == filter_entry(es.skip(i as int), key@),
        decreases entries@.len() - i,
    {
        assert(es.skip(i as int)[0] == es[i as int]);
        if entries[i].0 == *key {
            return Some(&entries[i].1);
        }
        assert(es.skip(i as int).drop_first() =~= es.skip(i + 1 as int));
        i = i + 1;
    }
    assert(es.skip(i as int).len() == 0);
    None
}

/// Does the filter keep this key?
pub fn is_key_included(key: &String, filter: &Filter) -> (b: bool)
    ensures
        b == spec_is_key_included(key@, filter@),
{
    match filter {
        Filter::Bool(b) => *b,
        Filter::Object(entries) => {
            if filter_entry_exec(entries, key).is_some() {
                true
            } else {
                filter_entry_exec(entries, &String::from_str("*")).is_some()
            }
        },
        Filter::Array(_) => false,
    }
}

/// The subfilter a kept key's value is parsed with.
pub fn next_filter<'a>(key: &String, filter: &'a Filter) -> (r: &'a Filter)
    ensures
        r@ == spec_next_filter(key@, filter@),
{
    match filter {
        Filter::Bool(_) => filter,
        Filter::Object(entries) => match filter_entry_exec(entries, key) {
            Some(f) => f,
            None => match filter_entry_exec(entries, &String::from_str("*")) {
                Some(f) => f,
                None => &Filter::Bool(false),
            },
        },
        Filter::Array(_) => &Filter::Bool(false),
    }
}

/// The subfilter for the elements of a block that is an array.
pub fn next_filter_array<'a>(filter: &'a Filter) -> (r: &'a Filter)
    ensures
        r@ == spec_next_filter_array(filter@),
{
    match filter {
        Filter::Bool(_) => filter,
        Filter::Array(elems) => {
            if elems.len() > 0 {
                &elems[0]
            } else {
                &Filter::Bool(false)
            }
        },
        Filter::Object(_) => filter,
    }
}

/// Does the filter mark this key as array-valued?
pub fn is_key_array(key: &String, filter: &Filter) -> (b: bool)
    ensures
        b == spec_is_key_array(key@, filter@),
{
    match filter {
        Filter::Object(entries) => {
            let e = match filter_entry_exec(entries, key) {
                Some(f) => Some(f),
                None => filter_entry_exec(entries, &String::from_str("*")),
            };
            match e {
                Some(f) => matches!(f, Filter::Array(_)),
                None => false,
            }
        },
        _ => false,
    }
}

/// A filter of `Bool(true)` keeps every key: nothing is skipped when the
/// caller asks for everything.
pub proof fn lemma_filter_true_includes_all(key: Seq<char>)
    ensures
        spec_is_key_included(key, SpecFilter::Bool(true)),
{
}

} // verus!

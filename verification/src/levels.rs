use vstd::prelude::*;

use crate::orderbook::PriceLevel;
use crate::types::Price;
use std::collections::BTreeMap;

verus! {

/// `BTreeMap::first_key_value`: the entry with the lowest key, if the map has
/// any entry.
#[verifier::external_body]
pub(crate) fn lowest_level(levels: &BTreeMap<Price, PriceLevel>) -> (found: Option<
    (&Price, &PriceLevel),
>)
    ensures
        match found {
            Some((price, level)) => {
                &&& levels@.contains_key(*price)
                &&& levels@[*price] == *level
                &&& forall|other: Price| #[trigger] levels@.contains_key(other) ==> *price <= other
            },
            None => forall|other: Price| !#[trigger] levels@.contains_key(other),
        },
{
    levels.first_key_value()
}

/// `BTreeMap::last_key_value`: the entry with the highest key, if the map has
/// any entry.
#[verifier::external_body]
pub(crate) fn highest_level(levels: &BTreeMap<Price, PriceLevel>) -> (found: Option<
    (&Price, &PriceLevel),
>)
    ensures
        match found {
            Some((price, level)) => {
                &&& levels@.contains_key(*price)
                &&& levels@[*price] == *level
                &&& forall|other: Price| #[trigger] levels@.contains_key(other) ==> other <= *price
            },
            None => forall|other: Price| !#[trigger] levels@.contains_key(other),
        },
{
    levels.last_key_value()
}

} // verus!

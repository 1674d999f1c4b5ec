use vstd::prelude::*;

use crate::orderbook::IndexMapEntry;
use crate::types::OrderId;
use hashbrown::HashMap;

verus! {

/// The reverse index of the book: where each resting order is found, by id.
///
/// It holds a `hashbrown::HashMap` keyed by the number of the order's id. The
/// map's allocator parameter is bound by a trait that cannot be declared to
/// the verifier, so the map stays behind this type: nothing of it is verified,
/// and what the functions below say of it is taken from the map's
/// documentation.
#[derive(Debug)]
#[verifier::external_body]
pub struct OrderIndex {
    map: HashMap<u64, IndexMapEntry>,
}

/// The entries of an order index, by the number of the order's id.
pub uninterp spec fn index_entries(index: OrderIndex) -> Map<u64, IndexMapEntry>;

/// `HashMap::default`: an empty map.
#[verifier::external_body]
pub(crate) fn index_new() -> (made: OrderIndex)
    ensures
        index_entries(made).dom() == Set::<u64>::empty(),
{
    OrderIndex { map: HashMap::default() }
}

/// `HashMap::len`: the number of entries of the map.
#[verifier::external_body]
pub(crate) fn index_len(index: &OrderIndex) -> (count: usize)
    ensures
        count == index_entries(*index).len(),
{
    index.map.len()
}

/// `HashMap::get`: a reference to the entry under the key, or `None` where the
/// map has no such key.
#[verifier::external_body]
pub(crate) fn index_get(index: &OrderIndex, id: u64) -> (found: Option<&IndexMapEntry>)
    ensures
        match found {
            Some(entry) => index_entries(*index).contains_key(id) && *entry == index_entries(
                *index,
            )[id],
            None => !index_entries(*index).contains_key(id),
        },
{
    index.map.get(&id)
}

/// `HashMap::insert`: puts the entry under the key. Where the key was present
/// the entry replaces the earlier one, which is returned; otherwise `None` is
/// returned. No other key changes.
#[verifier::external_body]
pub(crate) fn index_insert(index: &mut OrderIndex, id: u64, entry: IndexMapEntry) -> (earlier:
    Option<IndexMapEntry>)
    ensures
        index_entries(*final(index)) == index_entries(*old(index)).insert(id, entry),
        match earlier {
            Some(e) => index_entries(*old(index)).contains_key(id) && e == index_entries(
                *old(index),
            )[id],
            None => !index_entries(*old(index)).contains_key(id),
        },
{
    index.map.insert(id, entry)
}

/// `HashMap::remove`: takes the key out of the map and returns the entry that
/// it had, or `None` where the map had no such key. No other key changes.
#[verifier::external_body]
pub(crate) fn index_remove(index: &mut OrderIndex, id: u64) -> (taken: Option<IndexMapEntry>)
    ensures
        index_entries(*final(index)) == index_entries(*old(index)).remove(id),
        match taken {
            Some(e) => index_entries(*old(index)).contains_key(id) && e == index_entries(
                *old(index),
            )[id],
            None => !index_entries(*old(index)).contains_key(id),
        },
{
    index.map.remove(&id)
}

impl Clone for OrderIndex {
    /// `HashMap::clone`: a map of its own with the same entries under the
    /// same keys; each entry is copied field by field.
    #[verifier::external_body]
    fn clone(&self) -> (copy: Self)
        ensures
            index_entries(copy) == index_entries(*self),
    {
        OrderIndex { map: self.map.clone() }
    }
}

impl OrderIndex {
    /// The entry of the order with the given id, if that order rests.
    pub fn get(&self, order_id: &OrderId) -> (found: Option<&IndexMapEntry>)
        ensures
            match found {
                Some(entry) => index_entries(*self).contains_key(order_id.0) && *entry
                    == index_entries(*self)[order_id.0],
                None => !index_entries(*self).contains_key(order_id.0),
            },
    {
        index_get(self, order_id.0)
    }

    /// The number of resting orders that the index knows.
    pub fn len(&self) -> (count: usize)
        ensures
            count == index_entries(*self).len(),
    {
        index_len(self)
    }
}

} // verus!

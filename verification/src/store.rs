use vstd::prelude::*;

use crate::chain::{level_chain, level_queue, level_wf, member_wf};
use crate::model::{BookView, Levels};
use crate::orderbook::{IndexMapEntry, OrderNode, PriceLevel};
use crate::types::{Price, Side};

verus! {

/// What the book holds, as mathematical maps: the price levels of each side,
/// the arena's records by handle, and the index's entries by order id.
pub struct Store {
    pub bids: Map<Price, PriceLevel>,
    pub asks: Map<Price, PriceLevel>,
    pub nodes: Map<usize, OrderNode>,
    pub index: Map<u64, IndexMapEntry>,
}

/// The queues of the levels of one side.
pub open spec fn side_view(nodes: Map<usize, OrderNode>, levels: Map<Price, PriceLevel>) -> Levels {
    Map::new(
        |price: Price| levels.contains_key(price),
        |price: Price| level_queue(nodes, levels[price]),
    )
}

impl Store {
    /// The price levels of one side.
    pub open spec fn levels(self, side: Side) -> Map<Price, PriceLevel> {
        match side {
            Side::Bid => self.bids,
            Side::Ask => self.asks,
        }
    }

    /// The store with the price levels of one side replaced.
    pub open spec fn with_levels(self, side: Side, levels: Map<Price, PriceLevel>) -> Store {
        match side {
            Side::Bid => Store { bids: levels, ..self },
            Side::Ask => Store { asks: levels, ..self },
        }
    }

    /// The index entry under `id` points at a live record of that order, and
    /// the record is on the list of the level that the entry names.
    pub open spec fn entry_wf(self, id: u64) -> bool {
        let entry = self.index[id];
        &&& self.levels(entry.side).contains_key(entry.price)
        &&& level_chain(self.nodes, self.levels(entry.side)[entry.price]).contains(
            entry.order_index,
        )
        &&& self.nodes.contains_key(entry.order_index)
        &&& self.nodes[entry.order_index].order_id.0 == id
    }

    /// The record under `handle` belongs to an order that the index finds there.
    pub open spec fn node_wf(self, handle: usize) -> bool {
        &&& self.index.contains_key(self.nodes[handle].order_id.0)
        &&& self.index[self.nodes[handle].order_id.0].order_index == handle
    }

    /// The structural invariant of the book.
    pub open spec fn wf(self) -> bool {
        &&& self.bids.dom().finite()
        &&& self.asks.dom().finite()
        &&& self.nodes.dom().finite()
        &&& self.index.dom().finite()
        &&& self.nodes.len() == self.index.len()
        &&& forall|price: Price| #[trigger]
            self.bids.contains_key(price) ==> level_wf(
                self.nodes,
                self.index,
                Side::Bid,
                price,
                self.bids[price],
            )
        &&& forall|price: Price| #[trigger]
            self.asks.contains_key(price) ==> level_wf(
                self.nodes,
                self.index,
                Side::Ask,
                price,
                self.asks[price],
            )
        &&& forall|id: u64| #[trigger] self.index.contains_key(id) ==> self.entry_wf(id)
        &&& forall|handle: usize| #[trigger] self.nodes.contains_key(handle) ==> self.node_wf(handle)
    }

    /// The book that the store stands for.
    pub open spec fn view(self) -> BookView {
        BookView {
            bids: side_view(self.nodes, self.bids),
            asks: side_view(self.nodes, self.asks),
        }
    }
}

/// In a well-formed store each level's list is well formed.
pub proof fn lemma_level_of(s: Store, side: Side, price: Price)
    requires
        s.wf(),
        s.levels(side).contains_key(price),
    ensures
        level_wf(s.nodes, s.index, side, price, s.levels(side)[price]),
{
    match side {
        Side::Bid => {
            assert(s.bids.contains_key(price));
        },
        Side::Ask => {
            assert(s.asks.contains_key(price));
        },
    }
}

/// A record is on the list of one level only, and there once.
pub proof fn lemma_one_place(
    s: Store,
    side: Side,
    price: Price,
    i: int,
    side2: Side,
    price2: Price,
    j: int,
)
    requires
        s.wf(),
        s.levels(side).contains_key(price),
        s.levels(side2).contains_key(price2),
        0 <= i < level_chain(s.nodes, s.levels(side)[price]).len(),
        0 <= j < level_chain(s.nodes, s.levels(side2)[price2]).len(),
        level_chain(s.nodes, s.levels(side)[price])[i] == level_chain(
            s.nodes,
            s.levels(side2)[price2],
        )[j],
    ensures
        side == side2,
        price == price2,
        i == j,
{
    lemma_level_of(s, side, price);
    lemma_level_of(s, side2, price2);
    let a = level_chain(s.nodes, s.levels(side)[price]);
    let b = level_chain(s.nodes, s.levels(side2)[price2]);
    assert(member_wf(s.nodes, s.index, side, price, a[i]));
    assert(member_wf(s.nodes, s.index, side2, price2, b[j]));
}

/// Well-formedness of a store, from its parts.
pub proof fn lemma_wf_from_levels(t: Store)
    requires
        t.bids.dom().finite(),
        t.asks.dom().finite(),
        t.nodes.dom().finite(),
        t.index.dom().finite(),
        t.nodes.len() == t.index.len(),
        forall|side: Side, price: Price| #[trigger]
            t.levels(side).contains_key(price) ==> level_wf(
                t.nodes,
                t.index,
                side,
                price,
                t.levels(side)[price],
            ),
        forall|id: u64| #[trigger] t.index.contains_key(id) ==> t.entry_wf(id),
        forall|handle: usize| #[trigger] t.nodes.contains_key(handle) ==> t.node_wf(handle),
    ensures
        t.wf(),
{
    assert forall|price: Price| #[trigger] t.bids.contains_key(price) implies level_wf(
        t.nodes,
        t.index,
        Side::Bid,
        price,
        t.bids[price],
    ) by {
        assert(t.levels(Side::Bid).contains_key(price));
    }
    assert forall|price: Price| #[trigger] t.asks.contains_key(price) implies level_wf(
        t.nodes,
        t.index,
        Side::Ask,
        price,
        t.asks[price],
    ) by {
        assert(t.levels(Side::Ask).contains_key(price));
    }
}

} // verus!

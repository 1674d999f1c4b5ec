use vstd::prelude::*;

use crate::arena::{
    arena_clone, arena_get, arena_get_mut, arena_insert, arena_new, arena_nodes, arena_remove,
};
use crate::chain::{lemma_chain_bounded, level_chain, member_wf};
use crate::error::{CancelOrderError, LimitOrderError, MarketOrderError};
use crate::index::{index_entries, index_get, index_insert, index_new, index_remove, OrderIndex};
use crate::levels::{highest_level, lowest_level};
use crate::matching::{
    lemma_front, lemma_reduce, lemma_sweep_full, lemma_sweep_nothing, lemma_sweep_partial,
};
use crate::model::{is_best, reduce_front, removed_at, sweep, BookView, Resting};
use crate::placing::{lemma_place, placed_nodes};
use crate::store::{lemma_level_of, side_view, Store};
use crate::types::{Fill, OrderId, Price, Quantity, Side};
use crate::unlinking::{
    lemma_near_place, lemma_place_of, lemma_unlink, place_of, unlinked, unlinked_nodes,
};
use slab::Slab;
use std::collections::BTreeMap;

verus! {

/// An arena record: one resting order and its neighbours in its level's list.
#[derive(Clone, Debug, PartialEq, Eq)]
pub struct OrderNode {
    pub quantity: Quantity,
    pub order_id: OrderId,
    pub previous: Option<usize>,
    pub next: Option<usize>,
}

/// The orders resting at one price on one side, as a list rooted in the arena.
#[derive(Debug, Clone, PartialEq, Eq)]
pub struct PriceLevel {
    pub head: usize,
    pub tail: usize,
    pub order_count: usize,
}

/// Where a resting order is found: its arena handle, its price and its side.
#[derive(Debug, Clone)]
pub struct IndexMapEntry {
    pub order_index: usize,
    pub price: Price,
    pub side: Side,
}

impl PriceLevel {
    /// The record at the head of this level's list, for writing, if `memory`
    /// holds one under that handle.
    pub fn head_mut<'a>(&self, memory: &'a mut Slab<OrderNode>) -> (found: Option<
        &'a mut OrderNode,
    >)
        ensures
            match found {
                Some(node) => {
                    &&& arena_nodes(*old(memory)).contains_key(self.head)
                    &&& *node == arena_nodes(*old(memory))[self.head]
                    &&& arena_nodes(*final(memory)) == arena_nodes(*old(memory)).insert(
                        self.head,
                        *final(node),
                    )
                },
                None => {
                    &&& !arena_nodes(*old(memory)).contains_key(self.head)
                    &&& arena_nodes(*final(memory)) == arena_nodes(*old(memory))
                },
            },
    {
        arena_get_mut(memory, self.head)
    }
}

/// A limit order book for one instrument.
#[derive(Debug)]
pub struct OrderBook {
    pub bids: BTreeMap<Price, PriceLevel>,
    pub asks: BTreeMap<Price, PriceLevel>,
    /// The arena of order records.
    pub orders: Slab<OrderNode>,
    /// The reverse index from order id to the order's record.
    pub index_map: OrderIndex,
}

impl View for OrderBook {
    type V = BookView;

    open spec fn view(&self) -> BookView {
        self.store().view()
    }
}

impl OrderBook {
    /// What the book holds, as mathematical maps.
    pub open spec fn store(&self) -> Store {
        Store {
            bids: self.bids@,
            asks: self.asks@,
            nodes: arena_nodes(self.orders),
            index: index_entries(self.index_map),
        }
    }

    /// The structural invariant: every level's list is as long as its count
    /// says and linked both ways, every indexed id leads to a live record on
    /// the list of its level, and the arena holds no other record.
    pub open spec fn wf(&self) -> bool {
        self.store().wf()
    }

    /// An order with this id rests in the book.
    pub open spec fn rests(&self, order_id: OrderId) -> bool {
        index_entries(self.index_map).contains_key(order_id.0)
    }

    /// The arena handle of the resting order with this id.
    pub open spec fn handle_of(&self, order_id: OrderId) -> usize {
        index_entries(self.index_map)[order_id.0].order_index
    }

    /// An empty book: no level, no record, no index entry.
    pub fn new() -> (book: Self)
        ensures
            book.wf(),
            book@.bids == Map::<Price, Seq<Resting>>::empty(),
            book@.asks == Map::<Price, Seq<Resting>>::empty(),
            book.store().nodes == Map::<usize, OrderNode>::empty(),
            book.store().index == Map::<u64, IndexMapEntry>::empty(),
    {
        let book = OrderBook {
            bids: BTreeMap::new(),
            asks: BTreeMap::new(),
            orders: arena_new(),
            index_map: index_new(),
        };
        assert(book.store().nodes =~= Map::<usize, OrderNode>::empty());
        assert(book.store().index =~= Map::<u64, IndexMapEntry>::empty());
        assert(book@.bids =~= Map::<Price, Seq<Resting>>::empty());
        assert(book@.asks =~= Map::<Price, Seq<Resting>>::empty());
        book
    }

    /// Places a limit order: it comes to rest at the back of the queue of
    /// its price and side, and never trades on the way in. An id that rests
    /// already is refused and the book stays as it is. `InternalError` is
    /// the answer only of a book whose structures disagree.
    pub fn execute_limit_order(
        &mut self,
        side: Side,
        order_id: OrderId,
        price: Price,
        quantity: Quantity,
    ) -> (result: Result<(), LimitOrderError>)
        requires
            quantity > 0,
        ensures
            old(self).rests(order_id) <==> result == Err::<(), LimitOrderError>(
                LimitOrderError::OrderIdAlreadyExists,
            ),
            old(self).rests(order_id) ==> *final(self) == *old(self),
            old(self).wf() ==> {
                &&& final(self).wf()
                &&& match result {
                    Ok(()) => {
                        let handle = final(self).handle_of(order_id);
                        &&& !old(self).store().nodes.contains_key(handle)
                        &&& final(self).store().index == old(self).store().index.insert(
                            order_id.0,
                            IndexMapEntry { order_index: handle, price, side },
                        )
                        &&& final(self)@ == old(self)@.place(
                            side,
                            price,
                            Resting { handle, id: order_id, quantity },
                        )
                    },
                    Err(error) => error == LimitOrderError::OrderIdAlreadyExists,
                }
            },
    {
        if index_get(&self.index_map, order_id.0).is_some() {
            return Err(LimitOrderError::OrderIdAlreadyExists);
        }
        let ghost before = self.store();

        let index = arena_insert(
            &mut self.orders,
            OrderNode { quantity, order_id, previous: None, next: None },
        );

        match self.level_at(side, price) {
            Some(level) => {
                proof {
                    if before.wf() {
                        lemma_level_of(before, side, price);
                        let chain = level_chain(before.nodes, level);
                        assert forall|i: int| 0 <= i < chain.len() implies before.nodes.contains_key(
                            #[trigger] chain[i],
                        ) by {
                            assert(member_wf(before.nodes, before.index, side, price, chain[i]));
                        }
                        lemma_chain_bounded(before.nodes, chain);
                        assert(member_wf(
                            before.nodes,
                            before.index,
                            side,
                            price,
                            chain[chain.len() - 1],
                        ));
                    }
                }
                let old_tail = level.tail;
                let order_count = match level.order_count.checked_add(1) {
                    Some(order_count) => order_count,
                    None => {
                        return Err(LimitOrderError::InternalError);
                    },
                };

                match arena_get_mut(&mut self.orders, old_tail) {
                    Some(next) => {
                        next.next = Some(index);
                    },
                    None => {
                        return Err(LimitOrderError::InternalError);
                    },
                }
                match arena_get_mut(&mut self.orders, index) {
                    Some(previous) => {
                        previous.previous = Some(old_tail);
                    },
                    None => {
                        return Err(LimitOrderError::InternalError);
                    },
                }
                self.set_level(
                    side,
                    price,
                    PriceLevel { head: level.head, tail: index, order_count },
                );
            },
            None => {
                self.set_level(
                    side,
                    price,
                    PriceLevel { head: index, tail: index, order_count: 1 },
                );
            },
        }

        index_insert(
            &mut self.index_map,
            order_id.0,
            IndexMapEntry { order_index: index, price, side },
        );

        proof {
            let after = self.store();
            if before.wf() {
                assert(after.nodes =~= placed_nodes(
                    before,
                    side,
                    order_id,
                    price,
                    quantity,
                    index,
                ));
                assert(after.levels(side.opposite()) == before.levels(side.opposite()));
                lemma_place(before, after, side, order_id, price, quantity, index);
                assert(after.view() == before.view().place(
                    side,
                    price,
                    Resting { handle: index, id: order_id, quantity },
                ));
            }
        }
        Ok(())
    }

    /// Cancels the resting order with the given id: it leaves its level's
    /// list, the arena and the index, and a level that it was alone at goes
    /// with it. An id that does not rest is refused and the book stays as it
    /// is. `InternalError` is the answer only of a book whose structures
    /// disagree.
    pub fn cancel_order(&mut self, order_id: OrderId) -> (result: Result<(), CancelOrderError>)
        ensures
            !old(self).rests(order_id) <==> result == Err::<(), CancelOrderError>(
                CancelOrderError::OrderIdNotFound,
            ),
            !old(self).rests(order_id) ==> *final(self) == *old(self),
            old(self).wf() ==> {
                &&& final(self).wf()
                &&& match result {
                    Ok(()) => {
                        &&& final(self).store().index == old(self).store().index.remove(
                            order_id.0,
                        )
                        &&& final(self)@ == old(self)@.cancel(order_id)
                    },
                    Err(error) => error == CancelOrderError::OrderIdNotFound,
                }
            },
    {
        if index_get(&self.index_map, order_id.0).is_none() {
            return Err(CancelOrderError::OrderIdNotFound);
        }
        if self.unlink(order_id) {
            Ok(())
        } else {
            Err(CancelOrderError::InternalError)
        }
    }

    /// The best bid: the level at the highest price, if any order bids.
    fn next_bid(bids: &BTreeMap<Price, PriceLevel>) -> (found: Option<(Price, PriceLevel)>)
        ensures
            match found {
                Some((price, level)) => {
                    &&& bids@.contains_key(price)
                    &&& bids@[price] == level
                    &&& is_best(bids@.dom(), Side::Ask, price)
                },
                None => forall|price: Price| !bids@.contains_key(price),
            },
    {
        match highest_level(bids) {
            Some((price, level)) => Some(
                (
                    *price,
                    PriceLevel {
                        head: level.head,
                        tail: level.tail,
                        order_count: level.order_count,
                    },
                ),
            ),
            None => None,
        }
    }

    /// The best ask: the level at the lowest price, if any order asks.
    fn next_ask(asks: &BTreeMap<Price, PriceLevel>) -> (found: Option<(Price, PriceLevel)>)
        ensures
            match found {
                Some((price, level)) => {
                    &&& asks@.contains_key(price)
                    &&& asks@[price] == level
                    &&& is_best(asks@.dom(), Side::Bid, price)
                },
                None => forall|price: Price| !asks@.contains_key(price),
            },
    {
        match lowest_level(asks) {
            Some((price, level)) => Some(
                (
                    *price,
                    PriceLevel {
                        head: level.head,
                        tail: level.tail,
                        order_count: level.order_count,
                    },
                ),
            ),
            None => None,
        }
    }

    /// Executes a market order against the other side of the book: the best
    /// price first, and at one price the earliest order first, until the
    /// quantity is used up or nothing rests on that side. What finds no
    /// match is dropped; the market order itself never rests. `InternalError`
    /// is the answer only of a book whose structures disagree.
    pub fn execute_market_order(&mut self, side: Side, quantity: Quantity) -> (result: Result<
        Vec<Fill>,
        MarketOrderError,
    >)
        ensures
            old(self).wf() ==> {
                &&& final(self).wf()
                &&& match result {
                    Ok(fills) => {
                        &&& fills@ == old(self)@.fills(side, quantity)
                        &&& final(self)@ == old(self)@.after_market(side, quantity)
                    },
                    Err(_) => false,
                }
            },
    {
        let ghost well = self.wf();
        let ghost resting = self@.side(side.opposite());
        let ghost own = self@.side(side);
        let ghost wanted = quantity;
        let mut quantity = quantity;
        let mut fills: Vec<Fill> = Vec::new();

        while quantity > 0
            invariant
                well == old(self).wf(),
                well ==> self.wf(),
                well ==> self@.side(side) == own,
                well ==> sweep(resting, side, wanted).0 == fills@ + sweep(
                    self@.side(side.opposite()),
                    side,
                    quantity,
                ).0,
                well ==> sweep(resting, side, wanted).1 == sweep(
                    self@.side(side.opposite()),
                    side,
                    quantity,
                ).1,
            ensures
                well ==> self.wf(),
                well ==> self@.side(side) == own,
                well ==> sweep(resting, side, wanted).0 == fills@,
                well ==> sweep(resting, side, wanted).1 == self@.side(side.opposite()),
            decreases quantity,
        {
            let ghost before = self.store();
            let ghost levels = self@.side(side.opposite());
            let next = match side {
                Side::Bid => Self::next_ask(&self.asks),
                Side::Ask => Self::next_bid(&self.bids),
            };
            let (price, top_level) = match next {
                Some(found) => found,
                None => {
                    proof {
                        assert(levels == side_view(before.nodes, before.levels(side.opposite())));
                        lemma_sweep_nothing(levels, side, quantity);
                    }
                    break ;
                },
            };
            proof {
                if well {
                    lemma_front(before, side.opposite(), price);
                }
            }
            let (node_quantity, node_id) = match arena_get(&self.orders, top_level.head) {
                Some(node) => (node.quantity, node.order_id),
                None => {
                    return Err(MarketOrderError::InternalError);
                },
            };
            if node_quantity == 0 {
                // An order without quantity never rests
                return Err(MarketOrderError::InternalError);
            }
            if quantity >= node_quantity {
                // This order will be fully consumed
                proof {
                    if well {
                        lemma_sweep_full(levels, side, quantity, price);
                    }
                }
                fills.push(Fill { price, quantity: node_quantity });
                quantity -= node_quantity;
                if !self.unlink(node_id) {
                    return Err(MarketOrderError::InternalError);
                }
                proof {
                    let later = sweep(self@.side(side.opposite()), side, quantity).0;
                    assert(fills@ + later =~= fills@.drop_last() + (seq![
                        Fill { price, quantity: node_quantity },
                    ] + later));
                }
            } else {
                // This resting order will be partially consumed
                proof {
                    if well {
                        lemma_sweep_partial(levels, side, quantity, price);
                    }
                }
                match arena_get_mut(&mut self.orders, top_level.head) {
                    Some(top_node) => {
                        top_node.quantity = top_node.quantity - quantity;
                    },
                    None => {
                        return Err(MarketOrderError::InternalError);
                    },
                }
                fills.push(Fill { price, quantity });
                proof {
                    if well {
                        lemma_reduce(before, self.store(), side.opposite(), price, quantity);
                        lemma_sweep_nothing(self@.side(side.opposite()), side, 0);
                        assert(fills@ =~= fills@.drop_last() + seq![Fill { price, quantity }]);
                        assert(fills@ + Seq::<Fill>::empty() =~= fills@);
                        assert(self@.side(side.opposite()) == reduce_front(levels, side, quantity));
                    }
                }
                quantity = 0;
            }
        }

        proof {
            if well {
                assert(self@ == old(self)@.after_market(side, wanted));
            }
        }
        Ok(fills)
    }

    /// Takes a resting order out of the index, out of its level's list and
    /// out of the arena. The answer is `false` where index, level and arena
    /// disagree, which those of a well-formed book never do.
    fn unlink(&mut self, order_id: OrderId) -> (done: bool)
        ensures
            old(self).wf() && old(self).rests(order_id) ==> {
                let entry = old(self).store().index[order_id.0];
                &&& done
                &&& final(self).wf()
                &&& unlinked(old(self).store(), final(self).store(), order_id.0)
                &&& final(self)@ == old(self)@.cancel(order_id)
                &&& final(self)@.side(entry.side) == removed_at(
                    old(self)@.side(entry.side),
                    entry.price,
                    place_of(old(self).store(), order_id.0),
                )
                &&& final(self)@.side(entry.side.opposite()) == old(self)@.side(
                    entry.side.opposite(),
                )
            },
    {
        let ghost before = self.store();
        let ghost well = self.wf() && self.rests(order_id);
        proof {
            if well {
                lemma_place_of(before, order_id.0);
                lemma_near_place(before, order_id.0);
            }
        }
        let entry = match index_remove(&mut self.index_map, order_id.0) {
            Some(entry) => entry,
            None => {
                return false;
            },
        };
        let level = match self.level_at(entry.side, entry.price) {
            Some(level) => level,
            None => {
                return false;
            },
        };
        let node_index = entry.order_index;
        let (prev_index, next_index) = match arena_get(&self.orders, node_index) {
            Some(node) => (node.previous, node.next),
            None => {
                return false;
            },
        };

        let mut head = level.head;
        let mut tail = level.tail;
        match prev_index {
            Some(prev) => {
                match arena_get_mut(&mut self.orders, prev) {
                    Some(prev_node) => {
                        prev_node.next = next_index;
                    },
                    None => {
                        return false;
                    },
                }
            },
            None => {
                head =
                match next_index {
                    Some(next) => next,
                    None => 0,
                };
            },
        }
        match next_index {
            Some(next) => {
                match arena_get_mut(&mut self.orders, next) {
                    Some(next_node) => {
                        next_node.previous = prev_index;
                    },
                    None => {
                        return false;
                    },
                }
            },
            None => {
                tail =
                match prev_index {
                    Some(prev) => prev,
                    None => 0,
                };
            },
        }

        if level.order_count == 0 {
            return false;
        }
        let order_count = level.order_count - 1;
        if order_count == 0 {
            self.drop_level(entry.side, entry.price);
        } else {
            self.set_level(entry.side, entry.price, PriceLevel { head, tail, order_count });
        }
        arena_remove(&mut self.orders, node_index);

        proof {
            let after = self.store();
            if well {
                assert(after.nodes =~= unlinked_nodes(before, node_index));
                assert(after.levels(entry.side.opposite()) == before.levels(entry.side.opposite()));
                assert(unlinked(before, after, order_id.0));
                lemma_unlink(before, after, order_id.0);
                assert(after.view() == before.view().cancel(order_id));
            }
        }
        true
    }

    /// The level of one side at a price, if orders rest there.
    fn level_at(&self, side: Side, price: Price) -> (found: Option<PriceLevel>)
        ensures
            match found {
                Some(level) => self.store().levels(side).contains_key(price) && level
                    == self.store().levels(side)[price],
                None => !self.store().levels(side).contains_key(price),
            },
    {
        let found = match side {
            Side::Bid => self.bids.get(&price),
            Side::Ask => self.asks.get(&price),
        };
        match found {
            Some(level) => Some(
                PriceLevel { head: level.head, tail: level.tail, order_count: level.order_count },
            ),
            None => None,
        }
    }

    /// Puts a level under a price of one side.
    fn set_level(&mut self, side: Side, price: Price, level: PriceLevel)
        ensures
            final(self).store() == old(self).store().with_levels(
                side,
                old(self).store().levels(side).insert(price, level),
            ),
    {
        match side {
            Side::Bid => {
                self.bids.insert(price, level);
            },
            Side::Ask => {
                self.asks.insert(price, level);
            },
        }
    }

    /// Takes the level under a price of one side away.
    fn drop_level(&mut self, side: Side, price: Price)
        ensures
            final(self).store() == old(self).store().with_levels(
                side,
                old(self).store().levels(side).remove(price),
            ),
    {
        match side {
            Side::Bid => {
                self.bids.remove(&price);
            },
            Side::Ask => {
                self.asks.remove(&price);
            },
        }
    }
}

impl Clone for OrderBook {
    /// A deep copy: a book of its own that holds the same levels, records and
    /// index entries.
    fn clone(&self) -> (copy: Self)
        ensures
            copy.store() == self.store(),
    {
        OrderBook {
            bids: self.bids.clone(),
            asks: self.asks.clone(),
            orders: arena_clone(&self.orders),
            index_map: self.index_map.clone(),
        }
    }
}

impl Default for OrderBook {
    /// An empty book.
    fn default() -> (book: Self)
        ensures
            book.wf(),
            book@.bids == Map::<Price, Seq<Resting>>::empty(),
            book@.asks == Map::<Price, Seq<Resting>>::empty(),
            book.store().nodes == Map::<usize, OrderNode>::empty(),
            book.store().index == Map::<u64, IndexMapEntry>::empty(),
    {
        Self::new()
    }
}

} // verus!

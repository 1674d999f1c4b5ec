use vstd::prelude::*;

use crate::chain::{
    chain_wf, lemma_level_kept, lemma_walk_linked, level_chain, level_queue, level_wf, member_wf,
    queue_of, resting_at,
};
use crate::model::{appended, Resting};
use crate::orderbook::{IndexMapEntry, OrderNode, PriceLevel};
use crate::store::{lemma_level_of, lemma_one_place, lemma_wf_from_levels, side_view, Store};
use crate::types::{OrderId, Price, Quantity, Side};

verus! {

/// The records of the arena after an order came to rest under `handle`: the
/// new record stands behind the old tail of its level, if the level was there.
pub open spec fn placed_nodes(
    s: Store,
    side: Side,
    id: OrderId,
    price: Price,
    quantity: Quantity,
    handle: usize,
) -> Map<usize, OrderNode> {
    if s.levels(side).contains_key(price) {
        let tail = s.levels(side)[price].tail;
        s.nodes.insert(tail, OrderNode { next: Some(handle), ..s.nodes[tail] }).insert(
            handle,
            OrderNode { quantity, order_id: id, previous: Some(tail), next: None },
        )
    } else {
        s.nodes.insert(handle, OrderNode { quantity, order_id: id, previous: None, next: None })
    }
}

/// The level at `price` after an order came to rest there under `handle`.
pub open spec fn placed_level(s: Store, side: Side, price: Price, handle: usize) -> PriceLevel {
    if s.levels(side).contains_key(price) {
        let level = s.levels(side)[price];
        PriceLevel {
            head: level.head,
            tail: handle,
            order_count: (level.order_count + 1) as usize,
        }
    } else {
        PriceLevel { head: handle, tail: handle, order_count: 1 }
    }
}

/// Linking a new record behind the tail of its level, or opening a level for
/// it, and indexing it, keeps the store well formed and appends the order to
/// its price's queue.
pub proof fn lemma_place(
    s: Store,
    t: Store,
    side: Side,
    id: OrderId,
    price: Price,
    quantity: Quantity,
    handle: usize,
)
    requires
        s.wf(),
        quantity > 0,
        !s.index.contains_key(id.0),
        !s.nodes.contains_key(handle),
        s.levels(side).contains_key(price) ==> s.levels(side)[price].order_count < usize::MAX,
        t.nodes == placed_nodes(s, side, id, price, quantity, handle),
        t.index == s.index.insert(id.0, IndexMapEntry { order_index: handle, price, side }),
        t.levels(side) == s.levels(side).insert(price, placed_level(s, side, price, handle)),
        t.levels(side.opposite()) == s.levels(side.opposite()),
    ensures
        t.wf(),
        t.view().side(side) == appended(
            s.view().side(side),
            price,
            Resting { handle, id, quantity },
        ),
        t.view().side(side.opposite()) == s.view().side(side.opposite()),
{
    let levels = s.levels(side);
    let level2 = placed_level(s, side, price, handle);
    let resting = Resting { handle, id, quantity };
    let old_chain = if levels.contains_key(price) {
        level_chain(s.nodes, levels[price])
    } else {
        Seq::<usize>::empty()
    };
    let chain2 = old_chain.push(handle);

    // The list of the level that took the order.
    if levels.contains_key(price) {
        lemma_level_of(s, side, price);
        let tail = levels[price].tail;
        assert forall|i: int| 0 <= i < old_chain.len() implies #[trigger] old_chain[i] != handle by {
            assert(member_wf(s.nodes, s.index, side, price, old_chain[i]));
        }
        assert forall|i: int| 0 <= i < old_chain.len() - 1 implies #[trigger] old_chain[i] != tail by {
            assert(old_chain[old_chain.len() - 1] == tail);
        }
        assert forall|i: int, j: int| 0 <= i && j == i + 1 && j < chain2.len() implies t.nodes[#[trigger] chain2[i]].next
            == Some(#[trigger] chain2[j]) && t.nodes[chain2[j]].previous == Some(chain2[i]) by {
            if j < old_chain.len() {
                assert(s.nodes[old_chain[i]].next == Some(old_chain[j]));
                assert(old_chain[i] != tail);
                assert(old_chain[j] != handle);
            } else {
                assert(chain2[i] == tail);
            }
        }
    }
    lemma_walk_linked(t.nodes, chain2);
    assert(chain2[0] == level2.head);
    assert(level_chain(t.nodes, level2) == chain2);
    assert(chain2.no_duplicates());
    assert forall|i: int| 0 <= i < chain2.len() implies member_wf(
        t.nodes,
        t.index,
        side,
        price,
        #[trigger] chain2[i],
    ) by {
        if i < old_chain.len() {
            assert(member_wf(s.nodes, s.index, side, price, old_chain[i]));
        }
    }
    assert(chain_wf(t.nodes, t.index, side, price, level2, chain2));
    assert(queue_of(t.nodes, chain2) =~= queue_of(s.nodes, old_chain).push(resting)) by {
        assert forall|i: int| 0 <= i < old_chain.len() implies resting_at(t.nodes, old_chain[i])
            == resting_at(s.nodes, old_chain[i]) by {
            assert(member_wf(s.nodes, s.index, side, price, old_chain[i]));
        }
    }

    // The other levels.
    assert forall|side2: Side, price2: Price| #[trigger]
        t.levels(side2).contains_key(price2) && !(side2 == side && price2 == price) implies {
        &&& s.levels(side2).contains_key(price2)
        &&& t.levels(side2)[price2] == s.levels(side2)[price2]
        &&& level_wf(t.nodes, t.index, side2, price2, t.levels(side2)[price2])
        &&& level_chain(t.nodes, t.levels(side2)[price2]) == level_chain(
            s.nodes,
            s.levels(side2)[price2],
        )
        &&& level_queue(t.nodes, t.levels(side2)[price2]) == level_queue(
            s.nodes,
            s.levels(side2)[price2],
        )
    } by {
        lemma_kept_when_placing(s, t, side, id, price, quantity, handle, side2, price2);
    }
    assert forall|side2: Side, price2: Price| #[trigger]
        t.levels(side2).contains_key(price2) implies level_wf(
        t.nodes,
        t.index,
        side2,
        price2,
        t.levels(side2)[price2],
    ) by {
        if side2 == side && price2 == price {
        }
    }

    // Index entries and arena records.
    assert forall|id2: u64| #[trigger] t.index.contains_key(id2) implies t.entry_wf(id2) by {
        if id2 == id.0 {
            assert(chain2[chain2.len() - 1] == handle);
        } else {
            assert(s.index.contains_key(id2));
            assert(s.entry_wf(id2));
            let e = s.index[id2];
            let c = level_chain(s.nodes, s.levels(e.side)[e.price]);
            let k = choose|k: int| 0 <= k < c.len() && c[k] == e.order_index;
            if e.side == side && e.price == price {
                assert(chain2[k] == e.order_index);
            } else {
                assert(t.levels(e.side).contains_key(e.price));
            }
        }
    }
    assert forall|h: usize| #[trigger] t.nodes.contains_key(h) implies t.node_wf(h) by {
        if h != handle {
            assert(s.nodes.contains_key(h));
            assert(s.node_wf(h));
        }
    }
    lemma_wf_from_levels(t);

    // The view.
    assert(t.view().side(side) =~= appended(s.view().side(side), price, resting)) by {
        assert(t.view().side(side) == side_view(t.nodes, t.levels(side)));
        assert(s.view().side(side) == side_view(s.nodes, s.levels(side)));
        assert forall|price2: Price| t.levels(side).contains_key(price2) && price2 != price implies level_queue(
            t.nodes, t.levels(side)[price2]) == level_queue(s.nodes, s.levels(side)[price2]) by {
            assert(t.levels(side).contains_key(price2) && !(side == side && price2 == price));
        }
        let made = appended(s.view().side(side), price, resting);
        assert(t.levels(side)[price] == level2);
        assert(level_queue(t.nodes, level2) == queue_of(t.nodes, chain2));
        if levels.contains_key(price) {
            assert(s.view().side(side)[price] == queue_of(s.nodes, old_chain));
            assert(made[price] == queue_of(s.nodes, old_chain).push(resting));
        } else {
            assert(queue_of(s.nodes, old_chain).push(resting) =~= seq![resting]);
            assert(made[price] == seq![resting]);
        }
        assert(t.view().side(side)[price] == made[price]);
        assert forall|price2: Price| t.view().side(side).contains_key(price2) implies made.contains_key(price2)
            && #[trigger] t.view().side(side)[price2] == made[price2] by {
            if price2 != price {
                assert(t.levels(side).contains_key(price2));
                assert(s.levels(side).contains_key(price2));
            }
        }
        assert forall|price2: Price| made.contains_key(price2) implies t.view().side(side).contains_key(price2) by {
            if price2 != price {
                assert(s.levels(side).contains_key(price2));
                assert(t.levels(side).contains_key(price2));
            }
        }
    }
    assert(t.view().side(side.opposite()) =~= s.view().side(side.opposite())) by {
        let other = side.opposite();
        assert(t.view().side(other) == side_view(t.nodes, t.levels(other)));
        assert(s.view().side(other) == side_view(s.nodes, s.levels(other)));
        assert forall|price2: Price| t.levels(other).contains_key(price2) implies level_queue(
            t.nodes, t.levels(other)[price2]) == level_queue(s.nodes, s.levels(other)[price2]) by {
            assert(t.levels(other).contains_key(price2) && !(other == side && price2 == price));
        }
    }
}

/// A level other than the one that took the order is as it was.
proof fn lemma_kept_when_placing(
    s: Store,
    t: Store,
    side: Side,
    id: OrderId,
    price: Price,
    quantity: Quantity,
    handle: usize,
    side2: Side,
    price2: Price,
)
    requires
        s.wf(),
        !s.index.contains_key(id.0),
        !s.nodes.contains_key(handle),
        t.nodes == placed_nodes(s, side, id, price, quantity, handle),
        t.index == s.index.insert(id.0, IndexMapEntry { order_index: handle, price, side }),
        t.levels(side) == s.levels(side).insert(price, placed_level(s, side, price, handle)),
        t.levels(side.opposite()) == s.levels(side.opposite()),
        t.levels(side2).contains_key(price2),
        !(side2 == side && price2 == price),
    ensures
        s.levels(side2).contains_key(price2),
        t.levels(side2)[price2] == s.levels(side2)[price2],
        level_wf(t.nodes, t.index, side2, price2, t.levels(side2)[price2]),
        level_chain(t.nodes, t.levels(side2)[price2]) == level_chain(
            s.nodes,
            s.levels(side2)[price2],
        ),
        level_queue(t.nodes, t.levels(side2)[price2]) == level_queue(
            s.nodes,
            s.levels(side2)[price2],
        ),
{
    assert(side2 == side || side2 == side.opposite());
    let level = s.levels(side2)[price2];
    lemma_level_of(s, side2, price2);
    let chain = level_chain(s.nodes, level);
    assert forall|i: int| 0 <= i < chain.len() implies {
        let h = #[trigger] chain[i];
        &&& t.nodes.contains_key(h)
        &&& t.nodes[h] == s.nodes[h]
        &&& t.index.contains_key(s.nodes[h].order_id.0)
        &&& t.index[s.nodes[h].order_id.0] == s.index[s.nodes[h].order_id.0]
    } by {
        let h = chain[i];
        assert(member_wf(s.nodes, s.index, side2, price2, h));
        if s.levels(side).contains_key(price) {
            lemma_level_of(s, side, price);
            let target = level_chain(s.nodes, s.levels(side)[price]);
            if h == s.levels(side)[price].tail {
                lemma_one_place(s, side2, price2, i, side, price, target.len() - 1);
            }
        }
    }
    lemma_level_kept(s.nodes, s.index, t.nodes, t.index, side2, price2, level);
}

} // verus!

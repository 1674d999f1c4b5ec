use vstd::prelude::*;

use crate::chain::{
    chain_wf, lemma_level_kept, lemma_walk_linked, level_chain, level_queue, level_wf, member_wf,
    queue_of, resting_at,
};
use crate::model::{best_price, is_best, reduce_front, removed_at, sweep, Levels, Resting};
use crate::orderbook::{IndexMapEntry, OrderNode};
use crate::store::{lemma_level_of, lemma_one_place, lemma_wf_from_levels, side_view, Store};
use crate::types::{Fill, Price, Quantity, Side};
use crate::unlinking::{lemma_place_of, place_of};

verus! {

/// The best price is the only price that is best.
pub proof fn lemma_best_price(prices: Set<Price>, taker: Side, price: Price)
    requires
        is_best(prices, taker, price),
    ensures
        best_price(prices, taker) == price,
{
    let chosen = best_price(prices, taker);
    assert(is_best(prices, taker, chosen));
    assert(prices.contains(chosen));
    assert(prices.contains(price));
}

/// A market order that takes the whole front order makes one fill of that
/// order's quantity and goes on with what is left of both.
pub proof fn lemma_sweep_full(levels: Levels, taker: Side, quantity: Quantity, price: Price)
    requires
        levels.dom().finite(),
        is_best(levels.dom(), taker, price),
        levels[price].len() > 0,
        0 < levels[price][0].quantity <= quantity,
    ensures
        ({
            let head = levels[price][0];
            let later = sweep(
                removed_at(levels, price, 0),
                taker,
                (quantity - head.quantity) as Quantity,
            );
            &&& sweep(levels, taker, quantity).0 == seq![Fill { price, quantity: head.quantity }]
                + later.0
            &&& sweep(levels, taker, quantity).1 == later.1
        }),
{
    lemma_best_price(levels.dom(), taker, price);
}

/// A market order smaller than the front order makes one fill of its own
/// quantity and leaves the front order that much smaller.
pub proof fn lemma_sweep_partial(levels: Levels, taker: Side, quantity: Quantity, price: Price)
    requires
        levels.dom().finite(),
        is_best(levels.dom(), taker, price),
        levels[price].len() > 0,
        0 < quantity < levels[price][0].quantity,
    ensures
        sweep(levels, taker, quantity).0 == seq![Fill { price, quantity }],
        sweep(levels, taker, quantity).1 == reduce_front(levels, taker, quantity),
{
    lemma_best_price(levels.dom(), taker, price);
}

/// A market order of no quantity, or one that meets no level, makes no fill
/// and changes nothing.
pub proof fn lemma_sweep_nothing(levels: Levels, taker: Side, quantity: Quantity)
    requires
        quantity == 0 || forall|price: Price| !levels.contains_key(price),
    ensures
        sweep(levels, taker, quantity).0 == Seq::<Fill>::empty(),
        sweep(levels, taker, quantity).1 == levels,
{
}

/// The front order of a level, in the store and in the view.
pub proof fn lemma_front(s: Store, side: Side, price: Price)
    requires
        s.wf(),
        s.levels(side).contains_key(price),
    ensures
        ({
            let head = s.levels(side)[price].head;
            let id = s.nodes[head].order_id.0;
            &&& s.nodes.contains_key(head)
            &&& s.nodes[head].quantity > 0
            &&& s.index.contains_key(id)
            &&& s.index[id] == (IndexMapEntry { order_index: head, price, side })
            &&& place_of(s, id) == 0
            &&& s.view().side(side).dom() == s.levels(side).dom()
            &&& s.view().side(side).dom().finite()
            &&& s.view().side(side)[price].len() > 0
            &&& s.view().side(side)[price][0] == resting_at(s.nodes, head)
        }),
{
    lemma_level_of(s, side, price);
    let level = s.levels(side)[price];
    let chain = level_chain(s.nodes, level);
    assert(member_wf(s.nodes, s.index, side, price, chain[0]));
    let id = s.nodes[level.head].order_id.0;
    lemma_place_of(s, id);
    assert(s.view().side(side) == side_view(s.nodes, s.levels(side)));
    assert(s.view().side(side).dom() =~= s.levels(side).dom());
    assert(level_queue(s.nodes, level)[0] == resting_at(s.nodes, chain[0]));
}

/// Taking part of the front order's quantity keeps the store well formed and
/// changes that order's quantity in the view, nothing else.
pub proof fn lemma_reduce(s: Store, t: Store, side: Side, price: Price, quantity: Quantity)
    requires
        s.wf(),
        s.levels(side).contains_key(price),
        0 < quantity < s.nodes[s.levels(side)[price].head].quantity,
        t.nodes == s.nodes.insert(
            s.levels(side)[price].head,
            OrderNode {
                quantity: (s.nodes[s.levels(side)[price].head].quantity - quantity) as Quantity,
                ..s.nodes[s.levels(side)[price].head]
            },
        ),
        t.index == s.index,
        t.bids == s.bids,
        t.asks == s.asks,
    ensures
        t.wf(),
        t.view().side(side.opposite()) == s.view().side(side.opposite()),
        t.view().side(side) == s.view().side(side).insert(
            price,
            s.view().side(side)[price].update(
                0,
                Resting {
                    quantity: (s.view().side(side)[price][0].quantity - quantity) as Quantity,
                    ..s.view().side(side)[price][0]
                },
            ),
        ),
{
    lemma_front(s, side, price);
    lemma_level_of(s, side, price);
    let level = s.levels(side)[price];
    let head = level.head;
    let chain = level_chain(s.nodes, level);
    assert(t.nodes.dom() =~= s.nodes.dom());

    // The level of the order.
    assert forall|i: int, j: int| 0 <= i && j == i + 1 && j < chain.len() implies t.nodes[#[trigger] chain[i]].next
        == Some(#[trigger] chain[j]) && t.nodes[chain[j]].previous == Some(chain[i]) by {
        assert(s.nodes[chain[i]].next == Some(chain[j]) && s.nodes[chain[j]].previous == Some(
            chain[i],
        ));
    }
    lemma_walk_linked(t.nodes, chain);
    assert(level_chain(t.nodes, level) == chain);
    assert forall|i: int| 0 <= i < chain.len() implies member_wf(
        t.nodes,
        t.index,
        side,
        price,
        #[trigger] chain[i],
    ) by {
        assert(member_wf(s.nodes, s.index, side, price, chain[i]));
    }
    assert(chain_wf(t.nodes, t.index, side, price, level, chain));
    let queue = level_queue(s.nodes, level);
    let reduced = Resting { quantity: (queue[0].quantity - quantity) as Quantity, ..queue[0] };
    assert(level_queue(t.nodes, level) =~= queue.update(0, reduced)) by {
        assert forall|i: int| 0 <= i < chain.len() implies queue_of(t.nodes, chain)[i]
            == queue.update(0, reduced)[i] by {
            assert(queue[i] == resting_at(s.nodes, chain[i]));
            if i != 0 {
                assert(chain[i] != chain[0]);
            }
        }
    }

    // The other levels.
    assert forall|side2: Side, price2: Price| #[trigger]
        t.levels(side2).contains_key(price2) && !(side2 == side && price2 == price) implies {
        &&& level_wf(t.nodes, t.index, side2, price2, t.levels(side2)[price2])
        &&& level_queue(t.nodes, t.levels(side2)[price2]) == level_queue(
            s.nodes,
            s.levels(side2)[price2],
        )
        &&& level_chain(t.nodes, t.levels(side2)[price2]) == level_chain(
            s.nodes,
            s.levels(side2)[price2],
        )
    } by {
        lemma_level_of(s, side2, price2);
        let other = level_chain(s.nodes, s.levels(side2)[price2]);
        assert forall|i: int| 0 <= i < other.len() implies {
            let h = #[trigger] other[i];
            &&& t.nodes.contains_key(h)
            &&& t.nodes[h] == s.nodes[h]
            &&& t.index.contains_key(s.nodes[h].order_id.0)
            &&& t.index[s.nodes[h].order_id.0] == s.index[s.nodes[h].order_id.0]
        } by {
            assert(member_wf(s.nodes, s.index, side2, price2, other[i]));
            if other[i] == head {
                lemma_one_place(s, side2, price2, i, side, price, 0);
            }
        }
        lemma_level_kept(
            s.nodes,
            s.index,
            t.nodes,
            t.index,
            side2,
            price2,
            s.levels(side2)[price2],
        );
    }
    assert forall|side2: Side, price2: Price| #[trigger]
        t.levels(side2).contains_key(price2) implies level_wf(
        t.nodes,
        t.index,
        side2,
        price2,
        t.levels(side2)[price2],
    ) by {
        if side2 == side && price2 == price {
        }
    }
    assert forall|id: u64| #[trigger] t.index.contains_key(id) implies t.entry_wf(id) by {
        assert(s.entry_wf(id));
        let e = s.index[id];
        if e.side == side && e.price == price {
        } else {
            assert(t.levels(e.side).contains_key(e.price));
        }
    }
    assert forall|h: usize| #[trigger] t.nodes.contains_key(h) implies t.node_wf(h) by {
        assert(s.nodes.contains_key(h));
        assert(s.node_wf(h));
    }
    lemma_wf_from_levels(t);

    // The view.
    let other_side = side.opposite();
    assert(t.view().side(side) == side_view(t.nodes, t.levels(side)));
    assert(t.view().side(other_side) == side_view(t.nodes, t.levels(other_side)));
    assert(s.view().side(side) == side_view(s.nodes, s.levels(side)));
    assert(s.view().side(other_side) == side_view(s.nodes, s.levels(other_side)));
    assert(side_view(t.nodes, t.levels(other_side)) =~= side_view(s.nodes, s.levels(other_side))) by {
        assert forall|price2: Price| t.levels(other_side).contains_key(price2) implies level_queue(
            t.nodes,
            t.levels(other_side)[price2],
        ) == level_queue(s.nodes, s.levels(other_side)[price2]) by {
            assert(t.levels(other_side).contains_key(price2) && !(other_side == side && price2
                == price));
        }
    }
    assert(side_view(t.nodes, t.levels(side)) =~= side_view(s.nodes, s.levels(side)).insert(
        price,
        queue.update(0, reduced),
    )) by {
        assert forall|price2: Price| t.levels(side).contains_key(price2) && price2 != price implies level_queue(
            t.nodes,
            t.levels(side)[price2],
        ) == level_queue(s.nodes, s.levels(side)[price2]) by {
            assert(t.levels(side).contains_key(price2) && !(side == side && price2 == price));
        }
    }
}

} // verus!

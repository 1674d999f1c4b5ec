//! What holds of every book, proved from the contracts of its operations.

use vstd::prelude::*;

use crate::chain::{level_chain, member_wf, resting_at};
use crate::model::{
    appended, best_price, filled, front_len, holds, is_best, lemma_strip_absent, levels_valid,
    liquidity, pop_front, strip, sweep, without, BookView, Levels, Resting,
};
use crate::orderbook::{IndexMapEntry, OrderBook};
use crate::store::{lemma_level_of, side_view, Store};
use crate::types::{Fill, OrderId, Price, Quantity, Side};
use crate::unlinking::{lemma_place_of, place_of};

verus! {

/// The structural invariant, spelled out: in a well-formed book the count of
/// every price level is the length of the list that starts at its head, and
/// every id of the order index leads to a live record of that order which the
/// list of the level at the entry's price and side reaches.
pub proof fn lemma_structure(book: OrderBook)
    requires
        book.wf(),
    ensures
        forall|side: Side, price: Price| #[trigger]
            book.store().levels(side).contains_key(price) ==> level_chain(
                book.store().nodes,
                book.store().levels(side)[price],
            ).len() == book.store().levels(side)[price].order_count,
        forall|id: u64| #[trigger]
            book.store().index.contains_key(id) ==> {
                let entry = book.store().index[id];
                &&& book.store().levels(entry.side).contains_key(entry.price)
                &&& level_chain(
                    book.store().nodes,
                    book.store().levels(entry.side)[entry.price],
                ).contains(entry.order_index)
                &&& book.store().nodes.contains_key(entry.order_index)
                &&& book.store().nodes[entry.order_index].order_id.0 == id
            },
        book.store().nodes.len() == book.store().index.len(),
{
    let s = book.store();
    assert forall|side: Side, price: Price| #[trigger]
        s.levels(side).contains_key(price) implies level_chain(s.nodes, s.levels(side)[price]).len()
        == s.levels(side)[price].order_count by {
        lemma_level_of(s, side, price);
    }
    assert forall|id: u64| #[trigger] s.index.contains_key(id) implies {
        let entry = s.index[id];
        &&& s.levels(entry.side).contains_key(entry.price)
        &&& level_chain(s.nodes, s.levels(entry.side)[entry.price]).contains(entry.order_index)
        &&& s.nodes.contains_key(entry.order_index)
        &&& s.nodes[entry.order_index].order_id.0 == id
    } by {
        assert(s.entry_wf(id));
    }
}

/// The view of a well-formed book has the levels of the price indexes, no
/// level without an order and no order without quantity.
pub proof fn lemma_view_valid(book: OrderBook)
    requires
        book.wf(),
    ensures
        book@.valid(),
        book@.bids.dom() == book.bids@.dom(),
        book@.asks.dom() == book.asks@.dom(),
{
    let s = book.store();
    assert forall|side: Side| #![trigger s.levels(side)]
        levels_valid(side_view(s.nodes, s.levels(side))) && side_view(s.nodes, s.levels(side)).dom()
            == s.levels(side).dom() by {
        let view = side_view(s.nodes, s.levels(side));
        assert(view.dom() =~= s.levels(side).dom());
        assert forall|price: Price| #[trigger] view.contains_key(price) implies view[price].len()
            > 0 by {
            lemma_level_of(s, side, price);
        }
        assert forall|price: Price, i: int|
            view.contains_key(price) && 0 <= i < view[price].len() implies (#[trigger] view[price][i]).quantity
            > 0 by {
            lemma_level_of(s, side, price);
            let chain = level_chain(s.nodes, s.levels(side)[price]);
            assert(member_wf(s.nodes, s.index, side, price, chain[i]));
            assert(view[price][i] == resting_at(s.nodes, chain[i]));
        }
    }
    assert(book@.bids == side_view(s.nodes, s.levels(Side::Bid)));
    assert(book@.asks == side_view(s.nodes, s.levels(Side::Ask)));
}

/// An id is in the order index of a well-formed book exactly when an order of
/// that id stands in a queue of the view.
pub proof fn lemma_rests_in_view(book: OrderBook, id: OrderId)
    requires
        book.wf(),
    ensures
        book.rests(id) <==> book@.holds(id),
{
    let s = book.store();
    assert(book@.bids == side_view(s.nodes, s.levels(Side::Bid)));
    assert(book@.asks == side_view(s.nodes, s.levels(Side::Ask)));
    if book.rests(id) {
        lemma_place_of(s, id.0);
        let entry = s.index[id.0];
        let chain = level_chain(s.nodes, s.levels(entry.side)[entry.price]);
        let k = place_of(s, id.0);
        let view = side_view(s.nodes, s.levels(entry.side));
        assert(view[entry.price][k] == resting_at(s.nodes, chain[k]));
        assert(view.contains_key(entry.price) && 0 <= k < view[entry.price].len()
            && view[entry.price][k].id == id);
        assert(holds(view, id));
    }
    assert forall|side: Side| #![trigger s.levels(side)]
        holds(side_view(s.nodes, s.levels(side)), id) implies book.rests(id) by {
        let view = side_view(s.nodes, s.levels(side));
        let (price, i) = choose|price: Price, i: int|
            view.contains_key(price) && 0 <= i < view[price].len() && (#[trigger] view[price][i]).id
                == id;
        lemma_level_of(s, side, price);
        let chain = level_chain(s.nodes, s.levels(side)[price]);
        assert(member_wf(s.nodes, s.index, side, price, chain[i]));
        assert(view[price][i] == resting_at(s.nodes, chain[i]));
    }
}

/// One level of two well-formed stores with the same view is the same in
/// both, and so is its list.
proof fn lemma_same_level(a: Store, b: Store, side: Side, price: Price)
    requires
        a.wf(),
        b.wf(),
        a.view() == b.view(),
        a.levels(side).contains_key(price),
    ensures
        b.levels(side).contains_key(price),
        b.levels(side)[price] == a.levels(side)[price],
        level_chain(b.nodes, b.levels(side)[price]) == level_chain(
            a.nodes,
            a.levels(side)[price],
        ),
{
    let va = side_view(a.nodes, a.levels(side));
    let vb = side_view(b.nodes, b.levels(side));
    assert(a.view().side(side) == va);
    assert(b.view().side(side) == vb);
    assert(va.contains_key(price));
    assert(vb.contains_key(price));
    lemma_level_of(a, side, price);
    lemma_level_of(b, side, price);
    let ca = level_chain(a.nodes, a.levels(side)[price]);
    let cb = level_chain(b.nodes, b.levels(side)[price]);
    assert(va[price] == vb[price]);
    assert(ca.len() == cb.len()) by {
        assert(va[price].len() == ca.len());
        assert(vb[price].len() == cb.len());
    }
    assert forall|i: int| 0 <= i < ca.len() implies ca[i] == cb[i] by {
        assert(va[price][i] == resting_at(a.nodes, ca[i]));
        assert(vb[price][i] == resting_at(b.nodes, cb[i]));
    }
    assert(ca =~= cb);
}

/// What one well-formed store holds, another with the same view holds too.
proof fn lemma_store_within(a: Store, b: Store)
    requires
        a.wf(),
        b.wf(),
        a.view() == b.view(),
    ensures
        forall|side: Side, price: Price| #[trigger]
            a.levels(side).contains_key(price) ==> b.levels(side).contains_key(price)
                && b.levels(side)[price] == a.levels(side)[price],
        forall|id: u64| #[trigger]
            a.index.contains_key(id) ==> b.index.contains_key(id) && b.index[id] == a.index[id],
        forall|handle: usize| #[trigger]
            a.nodes.contains_key(handle) ==> b.nodes.contains_key(handle) && b.nodes[handle]
                == a.nodes[handle],
{
    assert forall|side: Side, price: Price| #[trigger]
        a.levels(side).contains_key(price) implies b.levels(side).contains_key(price)
        && b.levels(side)[price] == a.levels(side)[price] by {
        lemma_same_level(a, b, side, price);
    }
    assert forall|id: u64| #[trigger] a.index.contains_key(id) implies b.index.contains_key(id)
        && b.index[id] == a.index[id] && b.nodes.contains_key(a.index[id].order_index)
        && b.nodes[a.index[id].order_index] == a.nodes[a.index[id].order_index] by {
        lemma_place_of(a, id);
        let entry = a.index[id];
        let handle = entry.order_index;
        let k = place_of(a, id);
        lemma_same_level(a, b, entry.side, entry.price);
        let chain = level_chain(a.nodes, a.levels(entry.side)[entry.price]);
        let va = side_view(a.nodes, a.levels(entry.side));
        let vb = side_view(b.nodes, b.levels(entry.side));
        assert(a.view().side(entry.side) == va);
        assert(b.view().side(entry.side) == vb);
        assert(va[entry.price][k] == resting_at(a.nodes, chain[k]));
        assert(vb[entry.price][k] == resting_at(b.nodes, chain[k]));
        lemma_level_of(b, entry.side, entry.price);
        assert(member_wf(b.nodes, b.index, entry.side, entry.price, chain[k]));
        assert(member_wf(a.nodes, a.index, entry.side, entry.price, chain[k]));
        assert(b.nodes[handle].order_id.0 == id);
        lemma_place_of(b, id);
        assert(place_of(b, id) == k);
    }
    assert forall|handle: usize| #[trigger] a.nodes.contains_key(handle) implies b.nodes.contains_key(
        handle,
    ) && b.nodes[handle] == a.nodes[handle] by {
        assert(a.node_wf(handle));
        assert(a.index.contains_key(a.nodes[handle].order_id.0));
    }
}

/// The view says all there is to say: two well-formed books with the same
/// view hold the same price levels, the same arena records under the same
/// handles, and the same index entries.
pub proof fn lemma_view_pins_store(a: OrderBook, b: OrderBook)
    requires
        a.wf(),
        b.wf(),
        a@ == b@,
    ensures
        a.store().bids == b.store().bids,
        a.store().asks == b.store().asks,
        a.store().nodes == b.store().nodes,
        a.store().index == b.store().index,
{
    lemma_store_within(a.store(), b.store());
    lemma_store_within(b.store(), a.store());
    assert(a.store().bids =~= b.store().bids) by {
        assert forall|price: Price| a.store().bids.contains_key(price) implies #[trigger] b.store().bids.contains_key(
            price,
        ) && b.store().bids[price] == a.store().bids[price] by {
            assert(a.store().levels(Side::Bid).contains_key(price));
        }
        assert forall|price: Price| b.store().bids.contains_key(price) implies #[trigger] a.store().bids.contains_key(
            price,
        ) by {
            assert(b.store().levels(Side::Bid).contains_key(price));
        }
    }
    assert(a.store().asks =~= b.store().asks) by {
        assert forall|price: Price| a.store().asks.contains_key(price) implies #[trigger] b.store().asks.contains_key(
            price,
        ) && b.store().asks[price] == a.store().asks[price] by {
            assert(a.store().levels(Side::Ask).contains_key(price));
        }
        assert forall|price: Price| b.store().asks.contains_key(price) implies #[trigger] a.store().asks.contains_key(
            price,
        ) by {
            assert(b.store().levels(Side::Ask).contains_key(price));
        }
    }
    assert(a.store().nodes =~= b.store().nodes);
    assert(a.store().index =~= b.store().index);
}

/// The quantity filled is what was asked for or what rests on the other side,
/// whichever is less.
pub proof fn lemma_filled(levels: Levels, taker: Side, quantity: Quantity)
    requires
        levels_valid(levels),
    ensures
        filled(sweep(levels, taker, quantity).0) == if quantity <= liquidity(levels, taker) {
            quantity as nat
        } else {
            liquidity(levels, taker)
        },
    decreases levels.dom().len(), front_len(levels, taker),
{
    let price = best_price(levels.dom(), taker);
    if levels.dom().len() == 0 {
        assert(levels.dom() =~= Set::<Price>::empty());
    } else if quantity == 0 {
    } else {
        lemma_best_exists(levels.dom(), taker);
        let head = levels[price][0];
        if quantity >= head.quantity {
            let rest = pop_front(levels, taker);
            lemma_pop_front_valid(levels, taker);
            let left = (quantity - head.quantity) as Quantity;
            lemma_filled(rest, taker, left);
            let later = sweep(rest, taker, left);
            let fills = seq![Fill { price, quantity: head.quantity }] + later.0;
            assert(fills.subrange(1, fills.len() as int) =~= later.0);
        } else {
            let fills = seq![Fill { price, quantity }];
            assert(fills.subrange(1, fills.len() as int) =~= Seq::<Fill>::empty());
            assert(filled(fills.subrange(1, fills.len() as int)) == 0);
        }
    }
}

/// Valid levels stay valid when the front order leaves, and are fewer or
/// shorter at the front then.
pub proof fn lemma_pop_front_valid(levels: Levels, taker: Side)
    requires
        levels_valid(levels),
        levels.dom().len() > 0,
    ensures
        levels_valid(pop_front(levels, taker)),
        levels.contains_key(best_price(levels.dom(), taker)),
        pop_front(levels, taker).dom().len() < levels.dom().len() || (pop_front(
            levels,
            taker,
        ).dom().len() == levels.dom().len() && front_len(pop_front(levels, taker), taker)
            < front_len(levels, taker)),
{
    let price = best_price(levels.dom(), taker);
    lemma_best_exists(levels.dom(), taker);
    let rest = pop_front(levels, taker);
    if levels[price].len() > 1 {
        assert(rest.dom() =~= levels.dom());
        levels[price].remove_ensures(0);
    }
    assert forall|other: Price, i: int|
        rest.contains_key(other) && 0 <= i < rest[other].len() implies (#[trigger] rest[other][i]).quantity
        > 0 by {
        if other == price {
            assert(rest[other][i] == levels[price][i + 1]);
        } else {
            assert(rest[other][i] == levels[other][i]);
        }
    }
    assert forall|other: Price| #[trigger] rest.contains_key(other) implies rest[other].len()
        > 0 by {
        if other != price {
            assert(levels.contains_key(other));
        }
    }
}

/// Levels that hold no order of the given id are the same without it.
pub proof fn lemma_without_absent(levels: Levels, id: OrderId)
    requires
        levels_valid(levels),
        !holds(levels, id),
    ensures
        without(levels, id) == levels,
{
    assert forall|price: Price| #[trigger] levels.contains_key(price) implies strip(
        levels[price],
        id,
    ) == levels[price] by {
        assert forall|i: int| 0 <= i < levels[price].len() implies (#[trigger] levels[price][i]).id
            != id by {}
        lemma_strip_absent(levels[price], id);
    }
    assert(without(levels, id) =~= levels);
}

/// Round trip: a book in which an order was placed and then cancelled by the
/// same id is the book before the placement. Its view is the same, and so are
/// its arena and its order index, with their sizes, and the levels of both
/// sides.
pub proof fn lemma_place_then_cancel(
    before: OrderBook,
    placed: OrderBook,
    after: OrderBook,
    side: Side,
    order_id: OrderId,
    price: Price,
    quantity: Quantity,
)
    requires
        before.wf(),
        placed.wf(),
        after.wf(),
        !before.rests(order_id),
        placed.store().index == before.store().index.insert(
            order_id.0,
            IndexMapEntry { order_index: placed.handle_of(order_id), price, side },
        ),
        placed@ == before@.place(
            side,
            price,
            Resting { handle: placed.handle_of(order_id), id: order_id, quantity },
        ),
        after.store().index == placed.store().index.remove(order_id.0),
        after@ == placed@.cancel(order_id),
    ensures
        after@ == before@,
        after.store().index == before.store().index,
        after.store().nodes == before.store().nodes,
        after.store().nodes.len() == before.store().nodes.len(),
        after.store().index.len() == before.store().index.len(),
        after.bids@ == before.bids@,
        after.asks@ == before.asks@,
{
    let order = Resting { handle: placed.handle_of(order_id), id: order_id, quantity };
    lemma_rests_in_view(before, order_id);
    lemma_view_valid(before);
    lemma_append_then_strip(before@.side(side), price, order);
    lemma_without_absent(before@.side(side.opposite()), order_id);
    lemma_view_pins_store(after, before);
}

/// Levels to which an order of a new id was appended are, without that id,
/// the levels before.
pub proof fn lemma_append_then_strip(levels: Levels, price: Price, order: Resting)
    requires
        levels_valid(levels),
        !holds(levels, order.id),
    ensures
        without(appended(levels, price, order), order.id) == levels,
{
    let made = appended(levels, price, order);
    let keep = |other: Resting| other.id != order.id;
    assert forall|other: Price| #[trigger] levels.contains_key(other) implies strip(
        levels[other],
        order.id,
    ) == levels[other] by {
        assert forall|i: int| 0 <= i < levels[other].len() implies (#[trigger] levels[other][i]).id
            != order.id by {}
        lemma_strip_absent(levels[other], order.id);
    }
    if levels.contains_key(price) {
        levels[price].lemma_filter_push(order, keep);
    } else {
        Seq::<Resting>::empty().lemma_filter_push(order, keep);
        assert(Seq::<Resting>::empty().push(order) =~= seq![order]);
        lemma_strip_absent(Seq::<Resting>::empty(), order.id);
    }
    assert(without(made, order.id) =~= levels);
}

/// No liquidity: a market order that finds no level on the other side makes
/// no fill and leaves the book as it is.
pub proof fn lemma_no_liquidity(book: BookView, taker: Side, quantity: Quantity)
    requires
        forall|price: Price| !book.side(taker.opposite()).contains_key(price),
    ensures
        book.fills(taker, quantity) == Seq::<Fill>::empty(),
        book.after_market(taker, quantity) == book,
{
}

/// No liquidity, of a book: a market order that finds no level on the other
/// side makes no fill, and the book after it holds what it held before.
pub proof fn lemma_market_order_no_liquidity(
    before: OrderBook,
    after: OrderBook,
    side: Side,
    quantity: Quantity,
)
    requires
        before.wf(),
        after.wf(),
        after@ == before@.after_market(side, quantity),
        forall|price: Price| !before@.side(side.opposite()).contains_key(price),
    ensures
        before@.fills(side, quantity) == Seq::<Fill>::empty(),
        after@ == before@,
        after.store().nodes == before.store().nodes,
        after.store().index == before.store().index,
        after.bids@ == before.bids@,
        after.asks@ == before.asks@,
{
    lemma_no_liquidity(before@, side, quantity);
    lemma_view_pins_store(after, before);
}

/// `first` is at least as good a price as `second` for an order of side
/// `taker`.
pub open spec fn no_worse(taker: Side, first: Price, second: Price) -> bool {
    match taker {
        Side::Bid => first <= second,
        Side::Ask => second <= first,
    }
}

/// Price priority: every fill of a market order is made at a price of the
/// levels, has a quantity, and no fill is made at a better price than a fill
/// before it.
pub proof fn lemma_fills_in_price_order(levels: Levels, taker: Side, quantity: Quantity)
    requires
        levels_valid(levels),
    ensures
        forall|i: int|
            0 <= i < sweep(levels, taker, quantity).0.len() ==> {
                &&& levels.contains_key((#[trigger] sweep(levels, taker, quantity).0[i]).price)
                &&& sweep(levels, taker, quantity).0[i].quantity > 0
            },
        forall|i: int, j: int|
            0 <= i <= j < sweep(levels, taker, quantity).0.len() ==> no_worse(
                taker,
                (#[trigger] sweep(levels, taker, quantity).0[i]).price,
                (#[trigger] sweep(levels, taker, quantity).0[j]).price,
            ),
    decreases levels.dom().len(), front_len(levels, taker),
{
    let price = best_price(levels.dom(), taker);
    let fills = sweep(levels, taker, quantity).0;
    if levels.dom().len() == 0 {
        assert(levels.dom() =~= Set::<Price>::empty());
    } else if quantity == 0 {
    } else {
        lemma_best_exists(levels.dom(), taker);
        let head = levels[price][0];
        if quantity >= head.quantity {
            let rest = pop_front(levels, taker);
            lemma_pop_front_valid(levels, taker);
            let left = (quantity - head.quantity) as Quantity;
            lemma_fills_in_price_order(rest, taker, left);
            let later = sweep(rest, taker, left).0;
            assert(fills == seq![Fill { price, quantity: head.quantity }] + later);
            assert forall|i: int| 0 <= i < fills.len() implies levels.contains_key(
                (#[trigger] fills[i]).price,
            ) && fills[i].quantity > 0 && no_worse(taker, price, fills[i].price) by {
                if i > 0 {
                    assert(fills[i] == later[i - 1]);
                    assert(rest.contains_key(later[i - 1].price));
                    assert(levels.dom().contains(later[i - 1].price));
                }
            }
            assert forall|i: int, j: int| 0 <= i <= j < fills.len() implies no_worse(
                taker,
                (#[trigger] fills[i]).price,
                (#[trigger] fills[j]).price,
            ) by {
                if i > 0 {
                    assert(fills[i] == later[i - 1]);
                    assert(fills[j] == later[j - 1]);
                } else {
                    assert(fills[0].price == price);
                }
            }
        }
    }
}

/// Among finitely many prices, and at least one, one is the best.
pub proof fn lemma_best_exists(prices: Set<Price>, taker: Side)
    requires
        prices.finite(),
        prices.len() > 0,
    ensures
        is_best(prices, taker, best_price(prices, taker)),
    decreases prices.len(),
{
    let one = prices.choose();
    let rest = prices.remove(one);
    if rest.len() == 0 {
        assert forall|other: Price| #[trigger] prices.contains(other) implies other == one by {
            if other != one {
                assert(rest.contains(other));
            }
        }
        assert(is_best(prices, taker, one));
    } else {
        lemma_best_exists(rest, taker);
        let b = best_price(rest, taker);
        let better = match taker {
            Side::Bid => if one <= b {
                one
            } else {
                b
            },
            Side::Ask => if b <= one {
                one
            } else {
                b
            },
        };
        assert forall|other: Price| #[trigger] prices.contains(other) implies match taker {
            Side::Bid => better <= other,
            Side::Ask => other <= better,
        } by {
            if other != one {
                assert(rest.contains(other));
            }
        }
        assert(rest.contains(b));
        assert(is_best(prices, taker, better));
    }
}

/// Over-fill: a market order for at least what rests on the other side
/// fills exactly that much and leaves no level there.
pub proof fn lemma_over_fill(levels: Levels, taker: Side, quantity: Quantity)
    requires
        levels_valid(levels),
        quantity >= liquidity(levels, taker),
    ensures
        filled(sweep(levels, taker, quantity).0) == liquidity(levels, taker),
        sweep(levels, taker, quantity).1 == Map::<Price, Seq<Resting>>::empty(),
    decreases levels.dom().len(), front_len(levels, taker),
{
    let price = best_price(levels.dom(), taker);
    if levels.dom().len() == 0 {
        assert(levels.dom() =~= Set::<Price>::empty());
        assert(levels =~= Map::<Price, Seq<Resting>>::empty());
    } else {
        lemma_pop_front_valid(levels, taker);
        let head = levels[price][0];
        let rest = pop_front(levels, taker);
        let left = (quantity - head.quantity) as Quantity;
        lemma_over_fill(rest, taker, left);
        let later = sweep(rest, taker, left);
        let fills = seq![Fill { price, quantity: head.quantity }] + later.0;
        assert(fills.subrange(1, fills.len() as int) =~= later.0);
    }
}

/// Over-fill, of a book: after a market order for at least what rested on the
/// other side, the fills add up to exactly that, the taker's own side is as it
/// was, and of the other side nothing is left in the price index, in the order
/// index or in the arena.
pub proof fn lemma_market_order_over_fill(
    before: OrderBook,
    after: OrderBook,
    side: Side,
    quantity: Quantity,
)
    requires
        before.wf(),
        after.wf(),
        after@ == before@.after_market(side, quantity),
        quantity >= liquidity(before@.side(side.opposite()), side),
    ensures
        filled(before@.fills(side, quantity)) == liquidity(before@.side(side.opposite()), side),
        after@.side(side) == before@.side(side),
        forall|price: Price| !after.store().levels(side.opposite()).contains_key(price),
        forall|id: u64| #[trigger]
            after.store().index.contains_key(id) ==> after.store().index[id].side == side,
        forall|handle: usize| #[trigger]
            after.store().nodes.contains_key(handle) ==> after.store().index[after.store().nodes[handle].order_id.0].side
                == side,
{
    lemma_view_valid(before);
    lemma_over_fill(before@.side(side.opposite()), side, quantity);
    lemma_side_emptied(after, side.opposite());
}

/// After a market order that left no level on a side, nothing of that side
/// is left in the price index, in the order index or in the arena.
pub proof fn lemma_side_emptied(book: OrderBook, side: Side)
    requires
        book.wf(),
        forall|price: Price| !book@.side(side).contains_key(price),
    ensures
        forall|price: Price| !book.store().levels(side).contains_key(price),
        forall|id: u64| #[trigger]
            book.store().index.contains_key(id) ==> book.store().index[id].side != side,
        forall|handle: usize| #[trigger]
            book.store().nodes.contains_key(handle) ==> book.store().index[book.store().nodes[handle].order_id.0].side
                != side,
{
    let s = book.store();
    assert(book@.side(side) == side_view(s.nodes, s.levels(side)));
    assert forall|price: Price| !s.levels(side).contains_key(price) by {
        assert(!side_view(s.nodes, s.levels(side)).contains_key(price));
    }
    assert forall|id: u64| #[trigger] s.index.contains_key(id) implies s.index[id].side
        != side by {
        assert(s.entry_wf(id));
    }
    assert forall|handle: usize| #[trigger] s.nodes.contains_key(handle) implies s.index[s.nodes[handle].order_id.0].side
        != side by {
        assert(s.node_wf(handle));
    }
}

} // verus!

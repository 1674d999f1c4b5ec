use vstd::prelude::*;

use crate::types::{Fill, OrderId, Price, Quantity, Side};

verus! {

/// A resting order as the book's view shows it.
pub struct Resting {
    /// The arena handle of the order's record.
    pub handle: usize,
    pub id: OrderId,
    /// What is left of the order; positive while it rests.
    pub quantity: Quantity,
}

/// One side of the book: for each price with resting orders, those orders in
/// arrival order, earliest first.
pub type Levels = Map<Price, Seq<Resting>>;

/// The book as a mathematical value.
pub struct BookView {
    pub bids: Levels,
    pub asks: Levels,
}

/// `price` is the price in `prices` that an order of side `taker` trades at
/// first: the lowest for a buyer, the highest for a seller.
pub open spec fn is_best(prices: Set<Price>, taker: Side, price: Price) -> bool {
    &&& prices.contains(price)
    &&& forall|other: Price| #[trigger]
        prices.contains(other) ==> match taker {
            Side::Bid => price <= other,
            Side::Ask => other <= price,
        }
}

/// The price that an order of side `taker` trades at first.
pub open spec fn best_price(prices: Set<Price>, taker: Side) -> Price {
    choose|price: Price| is_best(prices, taker, price)
}

/// The queue without the order of the given id.
pub open spec fn strip(queue: Seq<Resting>, id: OrderId) -> Seq<Resting> {
    queue.filter(|order: Resting| order.id != id)
}

/// The levels without the order of the given id; a level that the order was
/// alone at is gone.
pub open spec fn without(levels: Levels, id: OrderId) -> Levels {
    Map::new(
        |price: Price| levels.contains_key(price) && strip(levels[price], id).len() > 0,
        |price: Price| strip(levels[price], id),
    )
}

/// The levels with one more order at the back of the queue at `price`.
pub open spec fn appended(levels: Levels, price: Price, order: Resting) -> Levels {
    if levels.contains_key(price) {
        levels.insert(price, levels[price].push(order))
    } else {
        levels.insert(price, seq![order])
    }
}

/// The number of orders at the best price, or 0 where there is no price.
pub open spec fn front_len(levels: Levels, taker: Side) -> nat {
    let price = best_price(levels.dom(), taker);
    if levels.contains_key(price) {
        levels[price].len()
    } else {
        0
    }
}

/// The levels after the order at place `at` of the queue at `price` left; a
/// level that it was alone at is gone.
pub open spec fn removed_at(levels: Levels, price: Price, at: int) -> Levels {
    if levels[price].len() == 1 {
        levels.remove(price)
    } else {
        levels.insert(price, levels[price].remove(at))
    }
}

/// The levels after the front order of the best price left.
pub open spec fn pop_front(levels: Levels, taker: Side) -> Levels {
    removed_at(levels, best_price(levels.dom(), taker), 0)
}

/// The levels after the front order of the best price gave `quantity` away.
pub open spec fn reduce_front(levels: Levels, taker: Side, quantity: Quantity) -> Levels {
    let price = best_price(levels.dom(), taker);
    let head = levels[price][0];
    levels.insert(
        price,
        levels[price].update(
            0,
            Resting { quantity: (head.quantity - quantity) as Quantity, ..head },
        ),
    )
}

/// Matching a market order of side `taker` against the levels of the other
/// side: the fills in the order they are made, and the levels left. The best
/// price goes first, and at one price the earliest order.
pub open spec fn sweep(levels: Levels, taker: Side, quantity: Quantity) -> (Seq<Fill>, Levels)
    decreases levels.dom().len(), front_len(levels, taker),
    via sweep_decreases
{
    let price = best_price(levels.dom(), taker);
    if quantity == 0 || !levels.dom().finite() || !levels.contains_key(price)
        || levels[price].len() == 0 {
        (Seq::empty(), levels)
    } else {
        let head = levels[price][0];
        if quantity >= head.quantity {
            let later = sweep(
                pop_front(levels, taker),
                taker,
                (quantity - head.quantity) as Quantity,
            );
            (seq![Fill { price, quantity: head.quantity }] + later.0, later.1)
        } else {
            (seq![Fill { price, quantity }], reduce_front(levels, taker, quantity))
        }
    }
}

#[via_fn]
proof fn sweep_decreases(levels: Levels, taker: Side, quantity: Quantity) {
    let price = best_price(levels.dom(), taker);
    if levels.dom().finite() && levels.contains_key(price) && levels[price].len() > 1 {
        let rest = pop_front(levels, taker);
        assert(rest.dom() =~= levels.dom());
    }
}

/// An order of the given id stands in one of the queues.
pub open spec fn holds(levels: Levels, id: OrderId) -> bool {
    exists|price: Price, i: int|
        levels.contains_key(price) && 0 <= i < levels[price].len() && (#[trigger] levels[price][i]).id
            == id
}

/// The levels are those of a book: finitely many, none without an order, and
/// no order without quantity.
pub open spec fn levels_valid(levels: Levels) -> bool {
    &&& levels.dom().finite()
    &&& forall|price: Price| #[trigger] levels.contains_key(price) ==> levels[price].len() > 0
    &&& forall|price: Price, i: int|
        levels.contains_key(price) && 0 <= i < levels[price].len() ==> (#[trigger] levels[price][i]).quantity
            > 0
}

/// The quantity that rests in the levels, summed in the order in which a
/// market order of side `taker` meets it.
pub open spec fn liquidity(levels: Levels, taker: Side) -> nat
    decreases levels.dom().len(), front_len(levels, taker),
    via liquidity_decreases
{
    let price = best_price(levels.dom(), taker);
    if !levels.dom().finite() || !levels.contains_key(price) || levels[price].len() == 0 {
        0
    } else {
        levels[price][0].quantity as nat + liquidity(pop_front(levels, taker), taker)
    }
}

#[via_fn]
proof fn liquidity_decreases(levels: Levels, taker: Side) {
    let price = best_price(levels.dom(), taker);
    if levels.dom().finite() && levels.contains_key(price) && levels[price].len() > 1 {
        let rest = pop_front(levels, taker);
        assert(rest.dom() =~= levels.dom());
    }
}

/// The quantity of a sequence of fills.
pub open spec fn filled(fills: Seq<Fill>) -> nat
    decreases fills.len(),
{
    if fills.len() == 0 {
        0
    } else {
        fills[0].quantity as nat + filled(fills.subrange(1, fills.len() as int))
    }
}

/// A queue that holds no order of the given id is the same without it.
pub proof fn lemma_strip_absent(queue: Seq<Resting>, id: OrderId)
    requires
        forall|i: int| 0 <= i < queue.len() ==> (#[trigger] queue[i]).id != id,
    ensures
        strip(queue, id) == queue,
    decreases queue.len(),
{
    let keep = |order: Resting| order.id != id;
    if queue.len() == 0 {
        reveal(Seq::filter);
        assert(queue.filter(keep) =~= queue);
    } else {
        let front = queue.drop_last();
        assert forall|i: int| 0 <= i < front.len() implies (#[trigger] front[i]).id != id by {
            assert(front[i] == queue[i]);
        }
        lemma_strip_absent(front, id);
        front.lemma_filter_push(queue.last(), keep);
        assert(front.push(queue.last()) =~= queue);
    }
}

/// A queue that holds the order of the given id once, at `at`, is without it
/// the queue with that place taken out.
pub proof fn lemma_strip_at(queue: Seq<Resting>, id: OrderId, at: int)
    requires
        0 <= at < queue.len(),
        queue[at].id == id,
        forall|i: int| 0 <= i < queue.len() && i != at ==> (#[trigger] queue[i]).id != id,
    ensures
        strip(queue, id) == queue.remove(at),
{
    let keep = |order: Resting| order.id != id;
    let before = queue.subrange(0, at);
    let one = seq![queue[at]];
    let after = queue.subrange(at + 1, queue.len() as int);
    assert(queue =~= before + one + after);
    assert forall|i: int| 0 <= i < before.len() implies (#[trigger] before[i]).id != id by {
        assert(before[i] == queue[i]);
    }
    assert forall|i: int| 0 <= i < after.len() implies (#[trigger] after[i]).id != id by {
        assert(after[i] == queue[i + at + 1]);
    }
    lemma_strip_absent(before, id);
    lemma_strip_absent(after, id);
    assert(one.filter(keep) =~= Seq::<Resting>::empty()) by {
        Seq::<Resting>::empty().lemma_filter_push(queue[at], keep);
        assert(Seq::<Resting>::empty().push(queue[at]) =~= one);
        reveal(Seq::filter);
        assert(Seq::<Resting>::empty().filter(keep) =~= Seq::<Resting>::empty());
    }
    Seq::filter_distributes_over_add(before, one, keep);
    Seq::filter_distributes_over_add(before + one, after, keep);
    assert(before + Seq::<Resting>::empty() + after =~= queue.remove(at));
}

impl BookView {
    /// The levels of one side.
    pub open spec fn side(self, side: Side) -> Levels {
        match side {
            Side::Bid => self.bids,
            Side::Ask => self.asks,
        }
    }

    /// The view with the levels of one side replaced.
    pub open spec fn with_side(self, side: Side, levels: Levels) -> BookView {
        match side {
            Side::Bid => BookView { bids: levels, asks: self.asks },
            Side::Ask => BookView { bids: self.bids, asks: levels },
        }
    }

    /// An order of the given id rests in the book.
    pub open spec fn holds(self, id: OrderId) -> bool {
        holds(self.bids, id) || holds(self.asks, id)
    }

    /// Both sides are the levels of a book.
    pub open spec fn valid(self) -> bool {
        levels_valid(self.bids) && levels_valid(self.asks)
    }

    /// The view after an order came to rest at the back of its price's queue.
    pub open spec fn place(self, side: Side, price: Price, order: Resting) -> BookView {
        self.with_side(side, appended(self.side(side), price, order))
    }

    /// The view without the order of the given id.
    pub open spec fn cancel(self, id: OrderId) -> BookView {
        BookView { bids: without(self.bids, id), asks: without(self.asks, id) }
    }

    /// The fills of a market order of side `taker`.
    pub open spec fn fills(self, taker: Side, quantity: Quantity) -> Seq<Fill> {
        sweep(self.side(taker.opposite()), taker, quantity).0
    }

    /// The view after a market order of side `taker`.
    pub open spec fn after_market(self, taker: Side, quantity: Quantity) -> BookView {
        self.with_side(
            taker.opposite(),
            sweep(self.side(taker.opposite()), taker, quantity).1,
        )
    }
}

} // verus!

use vstd::prelude::*;

use crate::chain::{
    chain_wf, lemma_level_kept, lemma_walk_linked, level_chain, level_queue, level_wf, member_wf,
    queue_of, resting_at,
};
use crate::model::{lemma_strip_absent, lemma_strip_at, removed_at, strip, without};
use crate::orderbook::{OrderNode, PriceLevel};
use crate::store::{lemma_level_of, lemma_one_place, lemma_wf_from_levels, side_view, Store};
use crate::types::{OrderId, Price, Side};

verus! {

/// The records of the arena after the record under `handle` left its list:
/// its neighbours are linked to each other, and its slot is free.
pub open spec fn unlinked_nodes(s: Store, handle: usize) -> Map<usize, OrderNode> {
    let node = s.nodes[handle];
    let before = match node.previous {
        Some(p) => s.nodes.insert(p, OrderNode { next: node.next, ..s.nodes[p] }),
        None => s.nodes,
    };
    let after = match node.next {
        Some(n) => before.insert(n, OrderNode { previous: node.previous, ..before[n] }),
        None => before,
    };
    after.remove(handle)
}

/// The level of the order with the given id after the order left, or `None`
/// where the order was alone there.
pub open spec fn unlinked_level(s: Store, id: u64) -> Option<PriceLevel> {
    let entry = s.index[id];
    let node = s.nodes[entry.order_index];
    let level = s.levels(entry.side)[entry.price];
    if level.order_count == 1 {
        None
    } else {
        Some(
            PriceLevel {
                head: match node.previous {
                    Some(_) => level.head,
                    None => match node.next {
                        Some(n) => n,
                        None => 0,
                    },
                },
                tail: match node.next {
                    Some(_) => level.tail,
                    None => match node.previous {
                        Some(p) => p,
                        None => 0,
                    },
                },
                order_count: (level.order_count - 1) as usize,
            },
        )
    }
}

/// The levels of the order's side after the order left.
pub open spec fn unlinked_levels(s: Store, id: u64) -> Map<Price, PriceLevel> {
    let entry = s.index[id];
    match unlinked_level(s, id) {
        Some(level) => s.levels(entry.side).insert(entry.price, level),
        None => s.levels(entry.side).remove(entry.price),
    }
}

/// `t` is `s` after the order with the given id left arena, list and index.
pub open spec fn unlinked(s: Store, t: Store, id: u64) -> bool {
    let entry = s.index[id];
    &&& t.nodes == unlinked_nodes(s, entry.order_index)
    &&& t.index == s.index.remove(id)
    &&& t.levels(entry.side) == unlinked_levels(s, id)
    &&& t.levels(entry.side.opposite()) == s.levels(entry.side.opposite())
}

/// Where the order with the given id stands on the list of its level.
pub open spec fn place_of(s: Store, id: u64) -> int {
    let entry = s.index[id];
    let chain = level_chain(s.nodes, s.levels(entry.side)[entry.price]);
    choose|k: int| 0 <= k < chain.len() && chain[k] == entry.order_index
}

/// What an indexed order's record and its neighbours look like.
pub proof fn lemma_place_of(s: Store, id: u64)
    requires
        s.wf(),
        s.index.contains_key(id),
    ensures
        ({
            let entry = s.index[id];
            let level = s.levels(entry.side)[entry.price];
            let chain = level_chain(s.nodes, level);
            let k = place_of(s, id);
            let node = s.nodes[entry.order_index];
            &&& s.levels(entry.side).contains_key(entry.price)
            &&& level_wf(s.nodes, s.index, entry.side, entry.price, level)
            &&& 0 <= k < chain.len()
            &&& chain[k] == entry.order_index
            &&& s.nodes.contains_key(entry.order_index)
            &&& node.order_id.0 == id
            &&& node.quantity > 0
            &&& node.previous == (if k == 0 {
                None
            } else {
                Some(chain[k - 1])
            })
            &&& node.next == (if k == chain.len() - 1 {
                None
            } else {
                Some(chain[k + 1])
            })
        }),
{
    let entry = s.index[id];
    assert(s.entry_wf(id));
    lemma_level_of(s, entry.side, entry.price);
    let chain = level_chain(s.nodes, s.levels(entry.side)[entry.price]);
    let k = place_of(s, id);
    assert(member_wf(s.nodes, s.index, entry.side, entry.price, chain[k]));
    if k > 0 {
        assert(s.nodes[chain[k - 1]].next == Some(chain[k]) && s.nodes[chain[k]].previous == Some(
            chain[k - 1],
        ));
    }
    if k < chain.len() - 1 {
        assert(s.nodes[chain[k]].next == Some(chain[k + 1]));
    }
}

/// The neighbours of an indexed order's record are live records.
pub proof fn lemma_near_place(s: Store, id: u64)
    requires
        s.wf(),
        s.index.contains_key(id),
    ensures
        ({
            let node = s.nodes[s.index[id].order_index];
            &&& node.previous matches Some(p) ==> s.nodes.contains_key(p) && p
                != s.index[id].order_index
            &&& node.next matches Some(n) ==> s.nodes.contains_key(n) && n
                != s.index[id].order_index
            &&& node.previous is Some && node.next is Some ==> node.previous != node.next
            &&& s.levels(s.index[id].side)[s.index[id].price].order_count == 1 <==> (
            node.previous is None && node.next is None)
        }),
{
    lemma_place_of(s, id);
    let entry = s.index[id];
    let chain = level_chain(s.nodes, s.levels(entry.side)[entry.price]);
    let k = place_of(s, id);
    if k > 0 {
        assert(member_wf(s.nodes, s.index, entry.side, entry.price, chain[k - 1]));
        assert(chain[k - 1] != chain[k]);
    }
    if k < chain.len() - 1 {
        assert(member_wf(s.nodes, s.index, entry.side, entry.price, chain[k + 1]));
        assert(chain[k + 1] != chain[k]);
    }
    if k > 0 && k < chain.len() - 1 {
        assert(chain[k - 1] != chain[k + 1]);
    }
}

/// A record other than the one that leaves belongs to another order.
proof fn lemma_other_id(s: Store, id: u64, side: Side, price: Price, i: int)
    requires
        s.wf(),
        s.index.contains_key(id),
        s.levels(side).contains_key(price),
        0 <= i < level_chain(s.nodes, s.levels(side)[price]).len(),
        level_chain(s.nodes, s.levels(side)[price])[i] != s.index[id].order_index,
    ensures
        s.nodes[level_chain(s.nodes, s.levels(side)[price])[i]].order_id.0 != id,
{
    lemma_level_of(s, side, price);
    let chain = level_chain(s.nodes, s.levels(side)[price]);
    assert(member_wf(s.nodes, s.index, side, price, chain[i]));
}

/// What the arena holds after the unlinking, record by record.
proof fn lemma_unlinked_nodes(s: Store, id: u64)
    requires
        s.wf(),
        s.index.contains_key(id),
    ensures
        ({
            let entry = s.index[id];
            let chain = level_chain(s.nodes, s.levels(entry.side)[entry.price]);
            let k = place_of(s, id);
            let node = s.nodes[entry.order_index];
            let made = unlinked_nodes(s, entry.order_index);
            &&& made.dom() == s.nodes.dom().remove(entry.order_index)
            &&& forall|h: usize|
                s.nodes.contains_key(h) && h != entry.order_index ==> {
                    &&& (#[trigger] made[h]).order_id == s.nodes[h].order_id
                    &&& made[h].quantity == s.nodes[h].quantity
                    &&& made[h].next == (if k > 0 && h == chain[k - 1] {
                        node.next
                    } else {
                        s.nodes[h].next
                    })
                    &&& made[h].previous == (if k < chain.len() - 1 && h == chain[k + 1] {
                        node.previous
                    } else {
                        s.nodes[h].previous
                    })
                }
        }),
{
    lemma_place_of(s, id);
    let entry = s.index[id];
    let level = s.levels(entry.side)[entry.price];
    let chain = level_chain(s.nodes, level);
    let k = place_of(s, id);
    let made = unlinked_nodes(s, entry.order_index);
    if k > 0 {
        assert(member_wf(s.nodes, s.index, entry.side, entry.price, chain[k - 1]));
        assert(chain[k - 1] != chain[k]);
    }
    if k < chain.len() - 1 {
        assert(member_wf(s.nodes, s.index, entry.side, entry.price, chain[k + 1]));
        assert(chain[k + 1] != chain[k]);
    }
    if k > 0 && k < chain.len() - 1 {
        assert(chain[k - 1] != chain[k + 1]);
    }
    assert(made.dom() =~= s.nodes.dom().remove(entry.order_index));
}

/// A level other than the one that the order left is as it was.
proof fn lemma_kept_when_unlinking(s: Store, t: Store, id: u64, side: Side, price: Price)
    requires
        s.wf(),
        s.index.contains_key(id),
        unlinked(s, t, id),
        s.levels(side).contains_key(price),
        !(side == s.index[id].side && price == s.index[id].price),
    ensures
        t.levels(side).contains_key(price),
        t.levels(side)[price] == s.levels(side)[price],
        level_wf(t.nodes, t.index, side, price, t.levels(side)[price]),
        level_chain(t.nodes, t.levels(side)[price]) == level_chain(s.nodes, s.levels(side)[price]),
        level_queue(t.nodes, t.levels(side)[price]) == level_queue(s.nodes, s.levels(side)[price]),
        strip(level_queue(s.nodes, s.levels(side)[price]), OrderId(id)) == level_queue(
            s.nodes,
            s.levels(side)[price],
        ),
{
    let entry = s.index[id];
    assert(side == entry.side || side == entry.side.opposite());
    lemma_place_of(s, id);
    lemma_unlinked_nodes(s, id);
    lemma_level_of(s, side, price);
    let level = s.levels(side)[price];
    let chain = level_chain(s.nodes, level);
    let target = level_chain(s.nodes, s.levels(entry.side)[entry.price]);
    let k = place_of(s, id);
    assert forall|i: int| 0 <= i < chain.len() implies {
        let h = #[trigger] chain[i];
        &&& t.nodes.contains_key(h)
        &&& t.nodes[h] == s.nodes[h]
        &&& t.index.contains_key(s.nodes[h].order_id.0)
        &&& t.index[s.nodes[h].order_id.0] == s.index[s.nodes[h].order_id.0]
        &&& s.nodes[h].order_id.0 != id
    } by {
        let h = chain[i];
        assert(member_wf(s.nodes, s.index, side, price, h));
        if h == target[k] {
            lemma_one_place(s, side, price, i, entry.side, entry.price, k);
        }
        if k > 0 && h == target[k - 1] {
            lemma_one_place(s, side, price, i, entry.side, entry.price, k - 1);
        }
        if k < target.len() - 1 && h == target[k + 1] {
            lemma_one_place(s, side, price, i, entry.side, entry.price, k + 1);
        }
        lemma_other_id(s, id, side, price, i);
    }
    lemma_level_kept(s.nodes, s.index, t.nodes, t.index, side, price, level);
    let queue = level_queue(s.nodes, level);
    assert forall|i: int| 0 <= i < queue.len() implies (#[trigger] queue[i]).id != OrderId(id) by {
        assert(queue[i] == resting_at(s.nodes, chain[i]));
    }
    lemma_strip_absent(queue, OrderId(id));
}

/// The level that the order left, where other orders stay at it.
proof fn lemma_left_level(s: Store, t: Store, id: u64)
    requires
        s.wf(),
        s.index.contains_key(id),
        unlinked(s, t, id),
        s.levels(s.index[id].side)[s.index[id].price].order_count > 1,
    ensures
        ({
            let entry = s.index[id];
            let chain = level_chain(s.nodes, s.levels(entry.side)[entry.price]);
            &&& t.levels(entry.side).contains_key(entry.price)
            &&& level_wf(t.nodes, t.index, entry.side, entry.price, t.levels(entry.side)[entry.price])
            &&& level_chain(t.nodes, t.levels(entry.side)[entry.price]) == chain.remove(
                place_of(s, id),
            )
            &&& level_queue(t.nodes, t.levels(entry.side)[entry.price]) == strip(
                level_queue(s.nodes, s.levels(entry.side)[entry.price]),
                OrderId(id),
            )
            &&& level_queue(t.nodes, t.levels(entry.side)[entry.price]) == level_queue(
                s.nodes,
                s.levels(entry.side)[entry.price],
            ).remove(place_of(s, id))
        }),
{
    let entry = s.index[id];
    let side = entry.side;
    let price = entry.price;
    lemma_place_of(s, id);
    lemma_unlinked_nodes(s, id);
    let level = s.levels(side)[price];
    let chain = level_chain(s.nodes, level);
    let k = place_of(s, id);
    let n = chain.len();
    let node = s.nodes[entry.order_index];
    let level2 = t.levels(side)[price];
    assert(level2 == unlinked_level(s, id).unwrap());
    let chain2 = chain.remove(k);
    chain.remove_ensures(k);
    assert forall|i: int| 0 <= i < n implies s.nodes.contains_key(#[trigger] chain[i]) by {
        assert(member_wf(s.nodes, s.index, side, price, chain[i]));
    }
    assert forall|i: int| 0 <= i < chain2.len() implies #[trigger] chain2[i] == chain[if i < k {
        i
    } else {
        i + 1
    }] by {}
    assert forall|i: int, j: int| 0 <= i && j == i + 1 && j < chain2.len() implies t.nodes[#[trigger] chain2[i]].next
        == Some(#[trigger] chain2[j]) && t.nodes[chain2[j]].previous == Some(chain2[i]) by {
        let a = if i < k {
            i
        } else {
            i + 1
        };
        let b = if j < k {
            j
        } else {
            j + 1
        };
        assert(chain2[i] == chain[a]);
        assert(chain2[j] == chain[b]);
        assert(chain[a] != chain[k]);
        assert(chain[b] != chain[k]);
        if b == a + 1 {
            assert(s.nodes[chain[a]].next == Some(chain[b]) && s.nodes[chain[b]].previous == Some(
                chain[a],
            ));
            if k > 0 {
                assert(chain[a] != chain[k - 1]);
            }
            if k < n - 1 {
                assert(chain[b] != chain[k + 1]);
            }
        } else {
            assert(a == k - 1 && b == k + 1);
        }
    }
    lemma_walk_linked(t.nodes, chain2);
    if k == 0 {
        assert(chain2[0] == chain[1]);
    } else {
        assert(chain2[0] == chain[0]);
    }
    assert(chain2[0] == level2.head);
    assert(level_chain(t.nodes, level2) == chain2);
    if k == n - 1 {
        assert(chain2[chain2.len() - 1] == chain[n - 2]);
    } else {
        assert(chain2[chain2.len() - 1] == chain[n - 1]);
    }
    assert(chain2.last() == level2.tail);
    assert(chain2.no_duplicates()) by {
        assert forall|i: int, j: int| 0 <= i < chain2.len() && 0 <= j < chain2.len() && i != j implies chain2[i]
            != chain2[j] by {
            let a = if i < k {
                i
            } else {
                i + 1
            };
            let b = if j < k {
                j
            } else {
                j + 1
            };
            assert(chain2[i] == chain[a]);
            assert(chain2[j] == chain[b]);
        }
    }
    assert(t.nodes[chain2[0]].previous is None) by {
        if k == 0 {
            assert(chain2[0] == chain[1]);
        } else {
            assert(chain2[0] == chain[0]);
            assert(chain[0] != chain[k]);
            if k < n - 1 {
                assert(chain[0] != chain[k + 1]);
            }
        }
    }
    assert(t.nodes[chain2.last()].next is None) by {
        if k == n - 1 {
            assert(chain2.last() == chain[n - 2]);
        } else {
            assert(chain2.last() == chain[n - 1]);
            assert(chain[n - 1] != chain[k]);
            if k > 0 {
                assert(chain[n - 1] != chain[k - 1]);
            }
        }
    }
    assert forall|i: int| 0 <= i < chain2.len() implies member_wf(
        t.nodes,
        t.index,
        side,
        price,
        #[trigger] chain2[i],
    ) by {
        let a = if i < k {
            i
        } else {
            i + 1
        };
        assert(chain2[i] == chain[a]);
        assert(chain[a] != chain[k]);
        assert(member_wf(s.nodes, s.index, side, price, chain[a]));
        lemma_other_id(s, id, side, price, a);
    }
    assert(chain_wf(t.nodes, t.index, side, price, level2, chain2));

    let queue = level_queue(s.nodes, level);
    assert(queue_of(t.nodes, chain2) =~= queue.remove(k)) by {
        queue.remove_ensures(k);
        assert forall|i: int| 0 <= i < chain2.len() implies queue_of(t.nodes, chain2)[i]
            == queue.remove(k)[i] by {
            let a = if i < k {
                i
            } else {
                i + 1
            };
            assert(chain2[i] == chain[a]);
            assert(chain[a] != chain[k]);
            assert(queue[a] == resting_at(s.nodes, chain[a]));
        }
    }
    assert forall|i: int| 0 <= i < queue.len() && i != k implies (#[trigger] queue[i]).id != OrderId(
        id,
    ) by {
        assert(queue[i] == resting_at(s.nodes, chain[i]));
        assert(chain[i] != chain[k]);
        lemma_other_id(s, id, side, price, i);
    }
    assert(queue[k].id == OrderId(id)) by {
        assert(queue[k] == resting_at(s.nodes, chain[k]));
    }
    lemma_strip_at(queue, OrderId(id), k);
    assert(level_queue(t.nodes, level2) == queue_of(t.nodes, chain2));
}

/// Taking an indexed order out of arena, list and index keeps the store well
/// formed and gives the view without that order.
pub proof fn lemma_unlink(s: Store, t: Store, id: u64)
    requires
        s.wf(),
        s.index.contains_key(id),
        unlinked(s, t, id),
    ensures
        t.wf(),
        t.view().bids == without(s.view().bids, OrderId(id)),
        t.view().asks == without(s.view().asks, OrderId(id)),
        t.view().side(s.index[id].side) == removed_at(
            s.view().side(s.index[id].side),
            s.index[id].price,
            place_of(s, id),
        ),
        t.view().side(s.index[id].side.opposite()) == s.view().side(s.index[id].side.opposite()),
{
    let entry = s.index[id];
    let side = entry.side;
    let price = entry.price;
    lemma_place_of(s, id);
    lemma_unlinked_nodes(s, id);
    let level = s.levels(side)[price];
    let chain = level_chain(s.nodes, level);
    let k = place_of(s, id);

    if level.order_count > 1 {
        lemma_left_level(s, t, id);
    }
    assert forall|side2: Side, price2: Price| #[trigger]
        t.levels(side2).contains_key(price2) implies level_wf(
        t.nodes,
        t.index,
        side2,
        price2,
        t.levels(side2)[price2],
    ) by {
        assert(side2 == side || side2 == side.opposite());
        if !(side2 == side && price2 == price) {
            lemma_kept_when_unlinking(s, t, id, side2, price2);
        }
    }
    assert forall|id2: u64| #[trigger] t.index.contains_key(id2) implies t.entry_wf(id2) by {
        assert(s.index.contains_key(id2));
        lemma_place_of(s, id2);
        let e = s.index[id2];
        let c = level_chain(s.nodes, s.levels(e.side)[e.price]);
        let j = place_of(s, id2);
        assert(e.order_index != entry.order_index);
        if e.side == side && e.price == price {
            assert(level.order_count > 1);
            chain.remove_ensures(k);
            if j < k {
                assert(chain.remove(k)[j] == e.order_index);
            } else {
                assert(chain.remove(k)[j - 1] == e.order_index);
            }
        } else {
            lemma_kept_when_unlinking(s, t, id, e.side, e.price);
            assert(c[j] == e.order_index);
        }
    }
    assert forall|h: usize| #[trigger] t.nodes.contains_key(h) implies t.node_wf(h) by {
        assert(s.nodes.contains_key(h));
        assert(s.node_wf(h));
    }
    lemma_wf_from_levels(t);

    let gone = OrderId(id);
    assert forall|side2: Side| #![trigger t.levels(side2)]
        side_view(t.nodes, t.levels(side2)) =~= without(side_view(s.nodes, s.levels(side2)), gone) by {
        assert(side2 == side || side2 == side.opposite());
        let made = side_view(t.nodes, t.levels(side2));
        let want = without(side_view(s.nodes, s.levels(side2)), gone);
        assert forall|price2: Price| made.contains_key(price2) <==> want.contains_key(price2) by {
            if side2 == side && price2 == price {
                let queue = level_queue(s.nodes, level);
                if level.order_count == 1 {
                    assert(queue[0] == resting_at(s.nodes, chain[0]));
                    lemma_strip_at(queue, gone, 0);
                    assert(queue.remove(0).len() == 0);
                }
            } else if s.levels(side2).contains_key(price2) {
                lemma_kept_when_unlinking(s, t, id, side2, price2);
                lemma_level_of(s, side2, price2);
            }
        }
        assert forall|price2: Price| made.contains_key(price2) implies #[trigger] made[price2]
            == want[price2] by {
            if side2 == side && price2 == price {
            } else {
                lemma_kept_when_unlinking(s, t, id, side2, price2);
            }
        }
    }
    assert(t.view().bids == side_view(t.nodes, t.levels(Side::Bid)));
    assert(t.view().asks == side_view(t.nodes, t.levels(Side::Ask)));
    assert(s.view().bids == side_view(s.nodes, s.levels(Side::Bid)));
    assert(s.view().asks == side_view(s.nodes, s.levels(Side::Ask)));

    let other = side.opposite();
    assert(side_view(t.nodes, t.levels(other)) =~= side_view(s.nodes, s.levels(other))) by {
        assert forall|price2: Price| s.levels(other).contains_key(price2) implies level_queue(
            t.nodes,
            t.levels(other)[price2],
        ) == level_queue(s.nodes, s.levels(other)[price2]) by {
            lemma_kept_when_unlinking(s, t, id, other, price2);
        }
    }
    assert(side_view(t.nodes, t.levels(side)) =~= removed_at(
        side_view(s.nodes, s.levels(side)),
        price,
        k,
    )) by {
        assert(side_view(s.nodes, s.levels(side))[price].len() == level.order_count);
        assert forall|price2: Price| s.levels(side).contains_key(price2) && price2 != price implies level_queue(
            t.nodes,
            t.levels(side)[price2],
        ) == level_queue(s.nodes, s.levels(side)[price2]) by {
            lemma_kept_when_unlinking(s, t, id, side, price2);
        }
    }
    assert(t.view().side(side) == side_view(t.nodes, t.levels(side)));
    assert(t.view().side(other) == side_view(t.nodes, t.levels(other)));
    assert(s.view().side(side) == side_view(s.nodes, s.levels(side)));
    assert(s.view().side(other) == side_view(s.nodes, s.levels(other)));
}

} // verus!

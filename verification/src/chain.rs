use vstd::prelude::*;

use crate::model::Resting;
use crate::orderbook::{IndexMapEntry, OrderNode, PriceLevel};
use crate::types::{Price, Side};

verus! {

/// The handles met on the way from `start` along the `next` links, `steps` of
/// them at most.
pub open spec fn walk(nodes: Map<usize, OrderNode>, start: Option<usize>, steps: nat) -> Seq<usize>
    decreases steps,
{
    if steps == 0 {
        Seq::empty()
    } else {
        match start {
            None => Seq::empty(),
            Some(handle) => seq![handle] + walk(nodes, nodes[handle].next, (steps - 1) as nat),
        }
    }
}

/// The handles of a level's list, head first.
pub open spec fn level_chain(nodes: Map<usize, OrderNode>, level: PriceLevel) -> Seq<usize> {
    walk(nodes, Some(level.head), level.order_count as nat)
}

/// The order that the record under `handle` holds.
pub open spec fn resting_at(nodes: Map<usize, OrderNode>, handle: usize) -> Resting {
    Resting { handle, id: nodes[handle].order_id, quantity: nodes[handle].quantity }
}

/// The orders of a chain of handles.
pub open spec fn queue_of(nodes: Map<usize, OrderNode>, chain: Seq<usize>) -> Seq<Resting> {
    chain.map_values(|handle: usize| resting_at(nodes, handle))
}

/// The orders of a level, earliest first.
pub open spec fn level_queue(nodes: Map<usize, OrderNode>, level: PriceLevel) -> Seq<Resting> {
    queue_of(nodes, level_chain(nodes, level))
}

/// Each handle of the chain but the last has the one after it as `next`, and
/// each but the first has the one before it as `previous`.
pub open spec fn linked(nodes: Map<usize, OrderNode>, chain: Seq<usize>) -> bool {
    forall|i: int, j: int|
        0 <= i && j == i + 1 && j < chain.len() ==> nodes[#[trigger] chain[i]].next == Some(
            #[trigger] chain[j],
        ) && nodes[chain[j]].previous == Some(chain[i])
}

/// The record under `handle` is live, holds a positive quantity, and the index
/// finds it under its order's id at this price and side.
pub open spec fn member_wf(
    nodes: Map<usize, OrderNode>,
    index: Map<u64, IndexMapEntry>,
    side: Side,
    price: Price,
    handle: usize,
) -> bool {
    &&& nodes.contains_key(handle)
    &&& nodes[handle].quantity > 0
    &&& index.contains_key(nodes[handle].order_id.0)
    &&& index[nodes[handle].order_id.0] == (IndexMapEntry { order_index: handle, price, side })
}

/// `chain` is the list of the level: as long as `order_count` says, from
/// `head` to `tail`, linked both ways, without a handle twice, of live records
/// that the index knows.
pub open spec fn chain_wf(
    nodes: Map<usize, OrderNode>,
    index: Map<u64, IndexMapEntry>,
    side: Side,
    price: Price,
    level: PriceLevel,
    chain: Seq<usize>,
) -> bool {
    &&& chain.len() > 0
    &&& chain.len() == level.order_count
    &&& chain[0] == level.head
    &&& chain.last() == level.tail
    &&& chain.no_duplicates()
    &&& nodes[chain[0]].previous is None
    &&& nodes[chain.last()].next is None
    &&& linked(nodes, chain)
    &&& forall|i: int| 0 <= i < chain.len() ==> member_wf(nodes, index, side, price, #[trigger] chain[i])
}

/// The level's list is well formed.
pub open spec fn level_wf(
    nodes: Map<usize, OrderNode>,
    index: Map<u64, IndexMapEntry>,
    side: Side,
    price: Price,
    level: PriceLevel,
) -> bool {
    chain_wf(nodes, index, side, price, level, level_chain(nodes, level))
}

/// A chain that is linked through `next` is what the walk from its first
/// handle finds.
pub proof fn lemma_walk_linked(nodes: Map<usize, OrderNode>, chain: Seq<usize>)
    requires
        chain.len() > 0,
        forall|i: int, j: int|
            0 <= i && j == i + 1 && j < chain.len() ==> nodes[#[trigger] chain[i]].next == Some(
                #[trigger] chain[j],
            ),
    ensures
        walk(nodes, Some(chain[0]), chain.len()) == chain,
    decreases chain.len(),
{
    let rest = chain.subrange(1, chain.len() as int);
    if chain.len() == 1 {
        assert(walk(nodes, nodes[chain[0]].next, 0) == Seq::<usize>::empty());
        assert(seq![chain[0]] + Seq::<usize>::empty() =~= chain);
    } else {
        assert(rest[0] == chain[1]);
        assert(nodes[chain[0]].next == Some(chain[1]));
        assert forall|i: int, j: int| 0 <= i && j == i + 1 && j < rest.len() implies nodes[#[trigger] rest[i]].next
            == Some(#[trigger] rest[j]) by {
            assert(rest[i] == chain[i + 1]);
            assert(rest[j] == chain[j + 1]);
        }
        lemma_walk_linked(nodes, rest);
        assert(seq![chain[0]] + rest =~= chain);
    }
}

/// A chain without a handle twice, of live records, is no longer than the
/// arena is large.
pub proof fn lemma_chain_bounded(nodes: Map<usize, OrderNode>, chain: Seq<usize>)
    requires
        nodes.dom().finite(),
        chain.no_duplicates(),
        forall|i: int| 0 <= i < chain.len() ==> nodes.contains_key(#[trigger] chain[i]),
    ensures
        chain.len() <= nodes.len(),
{
    chain.unique_seq_to_set();
    assert(chain.to_set().subset_of(nodes.dom())) by {
        assert forall|h: usize| chain.to_set().contains(h) implies nodes.dom().contains(h) by {
            let i = choose|i: int| 0 <= i < chain.len() && chain[i] == h;
            assert(nodes.contains_key(chain[i]));
        }
    }
    vstd::set_lib::lemma_len_subset(chain.to_set(), nodes.dom());
}

/// A level whose records and index entries are untouched keeps its list, its
/// queue and its well-formedness, whatever else changes in arena and index.
pub proof fn lemma_level_kept(
    nodes: Map<usize, OrderNode>,
    index: Map<u64, IndexMapEntry>,
    nodes2: Map<usize, OrderNode>,
    index2: Map<u64, IndexMapEntry>,
    side: Side,
    price: Price,
    level: PriceLevel,
)
    requires
        level_wf(nodes, index, side, price, level),
        forall|i: int|
            0 <= i < level_chain(nodes, level).len() ==> {
                let handle = #[trigger] level_chain(nodes, level)[i];
                &&& nodes2.contains_key(handle)
                &&& nodes2[handle] == nodes[handle]
                &&& index2.contains_key(nodes[handle].order_id.0)
                &&& index2[nodes[handle].order_id.0] == index[nodes[handle].order_id.0]
            },
    ensures
        level_chain(nodes2, level) == level_chain(nodes, level),
        level_queue(nodes2, level) == level_queue(nodes, level),
        level_wf(nodes2, index2, side, price, level),
{
    let chain = level_chain(nodes, level);
    assert forall|i: int, j: int| 0 <= i && j == i + 1 && j < chain.len() implies nodes2[#[trigger] chain[i]].next
        == Some(#[trigger] chain[j]) by {
        assert(nodes[chain[i]].next == Some(chain[j]));
    }
    lemma_walk_linked(nodes2, chain);
    assert(level_chain(nodes2, level) == chain);
    assert(queue_of(nodes2, chain) =~= queue_of(nodes, chain));
    assert forall|i: int, j: int| 0 <= i && j == i + 1 && j < chain.len() implies nodes2[#[trigger] chain[i]].next
        == Some(#[trigger] chain[j]) && nodes2[chain[j]].previous == Some(chain[i]) by {
        assert(nodes[chain[i]].next == Some(chain[j]));
    }
    assert forall|i: int| 0 <= i < chain.len() implies member_wf(
        nodes2,
        index2,
        side,
        price,
        #[trigger] chain[i],
    ) by {
        assert(member_wf(nodes, index, side, price, chain[i]));
    }
}

} // verus!

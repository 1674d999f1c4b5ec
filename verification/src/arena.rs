use vstd::prelude::*;

use crate::orderbook::OrderNode;
use slab::Slab;

verus! {

/// `slab::Slab`, the arena that holds the order records. The verifier sees
/// nothing inside it: what it holds is named by [`arena_nodes`], and the
/// functions below say of each of its methods what the slab's documentation
/// says.
#[verifier::external_type_specification]
#[verifier::external_body]
#[verifier::reject_recursive_types(T)]
pub struct ExSlab<T>(Slab<T>);

/// The live records of an arena, by handle.
pub uninterp spec fn arena_nodes(arena: Slab<OrderNode>) -> Map<usize, OrderNode>;

/// `Slab::new`: an empty slab.
#[verifier::external_body]
pub(crate) fn arena_new() -> (made: Slab<OrderNode>)
    ensures
        arena_nodes(made).dom() == Set::<usize>::empty(),
{
    Slab::new()
}

/// `Slab::clone`: a slab of its own that holds the same records under the same
/// keys; each record is copied field by field.
#[verifier::external_body]
pub(crate) fn arena_clone(arena: &Slab<OrderNode>) -> (copy: Slab<OrderNode>)
    ensures
        arena_nodes(copy) == arena_nodes(*arena),
{
    arena.clone()
}

/// `Slab::insert`: stores the record under a key that held no value before,
/// and returns that key. No other key changes. The slab keeps the number of
/// its values in a `usize`, so that number fits one after the insertion too.
#[verifier::external_body]
pub(crate) fn arena_insert(arena: &mut Slab<OrderNode>, node: OrderNode) -> (key: usize)
    ensures
        !arena_nodes(*old(arena)).contains_key(key),
        arena_nodes(*final(arena)) == arena_nodes(*old(arena)).insert(key, node),
        arena_nodes(*final(arena)).len() <= usize::MAX,
{
    arena.insert(node)
}

/// `Slab::get`: a reference to the record under the key, or `None` where the
/// key holds no value.
#[verifier::external_body]
pub(crate) fn arena_get(arena: &Slab<OrderNode>, key: usize) -> (found: Option<&OrderNode>)
    ensures
        match found {
            Some(node) => {
                &&& arena_nodes(*arena).contains_key(key)
                &&& *node == arena_nodes(*arena)[key]
            },
            None => !arena_nodes(*arena).contains_key(key),
        },
{
    arena.get(key)
}

/// `Slab::get_mut`: a mutable reference to the record under the key, or
/// `None` where the key holds no value. What is written through the reference
/// is the record under that key afterwards; no other key changes.
#[verifier::external_body]
pub(crate) fn arena_get_mut(arena: &mut Slab<OrderNode>, key: usize) -> (found: Option<
    &mut OrderNode,
>)
    ensures
        match found {
            Some(node) => {
                &&& arena_nodes(*old(arena)).contains_key(key)
                &&& *node == arena_nodes(*old(arena))[key]
                &&& arena_nodes(*final(arena)) == arena_nodes(*old(arena)).insert(key, *final(node))
            },
            None => {
                &&& !arena_nodes(*old(arena)).contains_key(key)
                &&& arena_nodes(*final(arena)) == arena_nodes(*old(arena))
            },
        },
{
    arena.get_mut(key)
}

/// `Slab::remove`: takes the record under the key out of the slab and returns
/// it. No other key changes. The slab panics on a key that holds no value, so
/// such a key is excluded.
#[verifier::external_body]
pub(crate) fn arena_remove(arena: &mut Slab<OrderNode>, key: usize) -> (node: OrderNode)
    requires
        arena_nodes(*old(arena)).contains_key(key),
    ensures
        node == arena_nodes(*old(arena))[key],
        arena_nodes(*final(arena)) == arena_nodes(*old(arena)).remove(key),
{
    arena.remove(key)
}

} // verus!

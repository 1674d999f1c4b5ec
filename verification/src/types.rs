use vstd::prelude::*;

verus! {

pub type Price = i64;

pub type Quantity = u64;

/// The side of the book an order belongs to.
#[derive(Clone, Copy, PartialEq, Eq, Debug)]
pub enum Side {
    Bid,
    Ask,
}

impl Side {
    /// The side a market order of this side trades against.
    pub open spec fn opposite(self) -> Side {
        match self {
            Side::Bid => Side::Ask,
            Side::Ask => Side::Bid,
        }
    }
}

/// Caller-supplied identifier, unique among the orders that currently rest.
#[derive(Debug, Default, Clone, Copy, PartialEq, Eq, Hash)]
pub struct OrderId(pub u64);

/// One matched segment of a market order.
#[derive(Debug, PartialEq, Eq)]
pub struct Fill {
    pub price: Price,
    pub quantity: Quantity,
}

} // verus!

use vstd::prelude::*;

verus! {

#[derive(Debug, PartialEq, Eq)]
pub enum CancelOrderError {
    /// No resting order has the given id.
    OrderIdNotFound,
    /// The book's indices disagree with each other.
    InternalError,
}

#[derive(Debug, PartialEq, Eq)]
pub enum MarketOrderError {
    /// The book's indices disagree with each other.
    InternalError,
}

#[derive(Debug, PartialEq, Eq)]
pub enum LimitOrderError {
    /// An order with the given id already rests in the book.
    OrderIdAlreadyExists,
    /// The book's indices disagree with each other.
    InternalError,
}

} // verus!

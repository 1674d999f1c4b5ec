//! A single-instrument limit order book with price-time priority.
//!
//! Resting orders live in an arena of intrusive list nodes, one doubly linked
//! list per price level, with an ordered price index per side and a reverse
//! index from order id to the node's location.
//!
//! - [`orderbook`] holds the book and its three operations: placing a limit
//!   order, executing a market order and cancelling an order.
//! - [`model`] is the book as a mathematical value, and what each operation
//!   does to it.
//! - [`store`] and [`chain`] say how the book's maps and lists stand for that
//!   value, and what makes them well formed.
//! - [`placing`], [`unlinking`] and [`matching`] prove that the steps of the
//!   operations keep the book well formed and do to the value what the model
//!   says.
//! - [`laws`] states what follows for every book.
//! - [`arena`], [`index`] and [`levels`] are the unverified edge: the slab,
//!   the hash map and the two ordered-map lookups that the book is built on.

pub mod arena;
pub mod chain;
pub mod error;
pub mod index;
pub mod laws;
pub mod levels;
pub mod matching;
pub mod model;
pub mod orderbook;
pub mod placing;
pub mod store;
pub mod types;
pub mod unlinking;

//! A limit order book matching engine.
//!
//! The engine maintains one book per symbol.  Each book holds two sides of
//! price levels; each level is a FIFO queue of resting orders sharing one
//! price.  Incoming orders are coalesced with same-user same-price resting
//! orders, matched against the opposite side under price-time priority, and
//! the residual quantity rests in the book.  List and match queries read a
//! consistent snapshot of the resting orders and of a bounded ring of recent
//! fills.  Every committed mutation emits events with per-symbol strictly
//! increasing sequence numbers; the replay module gives those events their
//! replay semantics and proves that replaying them rebuilds the book's
//! transitions.

pub mod order;
pub mod book;
pub mod engine;
pub mod replay;

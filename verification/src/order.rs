//! Core value types: sides, orders, events, fills, filters and errors.

use vstd::prelude::*;

verus! {

/// Which side of the book an order belongs to.
#[derive(Clone, Copy, PartialEq, Eq, Structural, Debug)]
pub enum Side {
    Buy,
    Sell,
}

impl Side {
    /// The opposite side, as a spec-level value.
    pub open spec fn spec_other(self) -> Side {
        match self {
            Side::Buy => Side::Sell,
            Side::Sell => Side::Buy,
        }
    }

    /// Numeric tag for the side, as a spec-level value.
    pub open spec fn spec_i16(self) -> i16 {
        match self {
            Side::Buy => 0i16,
            Side::Sell => 1i16,
        }
    }

    /// Numeric tag used by storage collaborators.
    pub fn to_i16(&self) -> (r: i16)
        ensures
            r == self.spec_i16(),
    {
        match self {
            Side::Buy => 0,
            Side::Sell => 1,
        }
    }

    /// The opposite side.
    pub fn other(&self) -> (r: Side)
        ensures
            r == self.spec_other(),
    {
        match self {
            Side::Buy => Side::Sell,
            Side::Sell => Side::Buy,
        }
    }
}

/// One resting or incoming order.  Identity (`id`) and `timestamp` are
/// assigned by the engine at acceptance time; `quantity` is mutated only by
/// the engine, during coalescing, partial fills and partial cancels.
#[derive(Clone, Copy, PartialEq, Eq, Structural, Debug)]
pub struct Order {
    pub id: u64,
    pub user: u64,
    pub symbol: u64,
    pub side: Side,
    pub price: u64,
    pub quantity: u64,
    pub timestamp: u64,
}

/// An event committed by the engine.  `seq` is strictly increasing per
/// symbol; the event sequence of a symbol replays to the exact book state.
/// Fill events are emitted for both sides of a trade; only the event whose
/// `resting` flag is set mutates the book on replay (the taker side of a
/// fill was never resident in the book).
#[derive(Clone, Copy, PartialEq, Eq, Structural, Debug)]
pub enum OrderEvent {
    /// A new order came to rest in the book with `order.quantity` remaining.
    Accepted { seq: u64, order: Order },
    /// An incoming order merged into resting order `id` of the same user at
    /// the same price; `added` is the incoming quantity, `new_quantity` the
    /// resting order's quantity afterwards.
    Coalesced { seq: u64, id: u64, side: Side, price: u64, added: u64, new_quantity: u64 },
    /// Order `id` traded `filled` at `price` and has `remaining > 0` left.
    PartiallyFilled {
        seq: u64,
        id: u64,
        side: Side,
        price: u64,
        filled: u64,
        remaining: u64,
        resting: bool,
    },
    /// Order `id` traded `filled` at `price` and is fully consumed.
    FullyFilled { seq: u64, id: u64, side: Side, price: u64, filled: u64, resting: bool },
    /// `removed` quantity of order `id` was cancelled; `remaining` is what is
    /// still resting (zero means the order left the book).
    Cancelled { seq: u64, id: u64, side: Side, price: u64, removed: u64, remaining: u64 },
}

/// One trade between a resting and an incoming order, kept in a bounded
/// in-memory ring per symbol so that match queries survive a degraded
/// event sink.
#[derive(Clone, Copy, PartialEq, Eq, Structural, Debug)]
pub struct Fill {
    pub seq: u64,
    pub symbol: u64,
    pub price: u64,
    pub quantity: u64,
    pub buyer: u64,
    pub seller: u64,
    pub buy_order_id: u64,
    pub sell_order_id: u64,
}

/// Why an add or cancel request was rejected before touching book state.
#[derive(Clone, Copy, PartialEq, Eq, Structural, Debug)]
pub enum ValidationError {
    /// Quantity must be a positive integer.
    ZeroQuantity,
    /// Price must be a positive integer.
    ZeroPrice,
    /// Coalescing or resting the order would push a level's aggregate
    /// quantity past the representable maximum.
    QuantityOverflow,
}

/// The result of an add request: the id under which the order was accepted
/// or coalesced, how much of it matched at once, the quantity-weighted
/// average price of those fills, and the committed events.
#[derive(Clone, Debug)]
pub struct AddOutcome {
    pub order_id: u64,
    pub filled: u64,
    pub avg_price: Option<u64>,
    pub events: Vec<OrderEvent>,
}

/// The result of a cancel request: the quantity actually removed (possibly
/// less than asked, or zero) and the committed events.
#[derive(Clone, Debug)]
pub struct CancelOutcome {
    pub cancelled: u64,
    pub events: Vec<OrderEvent>,
}

/// Conjunctive filters for listing resting orders; an absent field is a
/// wildcard.
#[derive(Clone, Copy, Debug)]
pub struct ListFilter {
    pub user: Option<u64>,
    pub side: Option<Side>,
    pub symbol: Option<u64>,
}

/// Conjunctive filters for querying past fills; an absent field is a
/// wildcard.  `user` matches either side of the trade.
#[derive(Clone, Copy, Debug)]
pub struct MatchFilter {
    pub user: Option<u64>,
    pub buyer: Option<u64>,
    pub seller: Option<u64>,
    pub symbol: Option<u64>,
}

/// Whether price `a` has strictly better priority than `b` on `side`.
pub fn price_better(side: Side, a: u64, b: u64) -> (r: bool)
    ensures
        r == better_price(side, a, b),
{
    match side {
        Side::Buy => a > b,
        Side::Sell => a < b,
    }
}

/// Whether an incoming order on `side` at `price` crosses a resting
/// opposite-side order priced `opposing`.
pub fn price_crosses(side: Side, price: u64, opposing: u64) -> (r: bool)
    ensures
        r == crosses(side, price, opposing),
{
    match side {
        Side::Buy => price >= opposing,
        Side::Sell => price <= opposing,
    }
}

/// Whether `price` of an incoming order on `side` crosses a resting
/// opposite-side order priced `opposing`.
pub open spec fn crosses(side: Side, price: u64, opposing: u64) -> bool {
    match side {
        Side::Buy => price >= opposing,
        Side::Sell => price <= opposing,
    }
}

/// Whether price `a` has strictly better priority than `b` on `side`
/// (higher for bids, lower for asks).
pub open spec fn better_price(side: Side, a: u64, b: u64) -> bool {
    match side {
        Side::Buy => a > b,
        Side::Sell => a < b,
    }
}

} // verus!

//! Price levels and the per-symbol order book, with its well-formedness
//! invariant: sorted distinct levels, FIFO time priority inside a level,
//! positive quantities, consistent cached level totals, and no persisted
//! cross between best bid and best ask.

use vstd::prelude::*;
use crate::order::{
    Side, Order, Fill, OrderEvent, ValidationError, AddOutcome, CancelOutcome, ListFilter,
    MatchFilter, better_price, price_better, crosses, price_crosses,
};

verus! {

/// All resting orders of one (symbol, side) at one price, oldest first.
/// `total` caches the sum of the member orders' quantities.
pub struct PriceLevel {
    pub price: u64,
    pub total: u64,
    pub orders: Vec<Order>,
}

/// Sum of the quantities of a sequence of orders.
pub open spec fn qty_sum(s: Seq<Order>) -> int
    decreases s.len(),
{
    if s.len() == 0 {
        0
    } else {
        s[0].quantity + qty_sum(s.drop_first())
    }
}

/// Quantity sums are never negative.
pub proof fn lemma_qty_sum_nonneg(s: Seq<Order>)
    ensures
        qty_sum(s) >= 0,
    decreases s.len(),
{
    if s.len() > 0 {
        lemma_qty_sum_nonneg(s.drop_first());
    }
}

/// Every order in `f` was stamped (id and timestamp) before `bound`.
pub open spec fn stamps_below_flat(f: Seq<Order>, bound: u64) -> bool {
    forall|i: int|
        0 <= i < f.len() ==> (#[trigger] f[i]).timestamp < bound && f[i].id < bound
}

/// A level is well formed for a given side and symbol: non-empty, every
/// member order carries exactly this (price, side, symbol), quantities are
/// positive, arrival timestamps strictly increase (time priority), and the
/// cached total equals the sum of member quantities.
pub open spec fn level_wf(l: PriceLevel, side: Side, symbol: u64) -> bool {
    &&& l.orders@.len() > 0
    &&& forall|i: int|
        0 <= i < l.orders@.len() ==> {
            &&& (#[trigger] l.orders@[i]).price == l.price
            &&& l.orders@[i].side == side
            &&& l.orders@[i].symbol == symbol
            &&& l.orders@[i].quantity > 0
        }
    &&& forall|i: int, j: int|
        0 <= i < j < l.orders@.len() ==> (#[trigger] l.orders@[i]).timestamp < (
        #[trigger] l.orders@[j]).timestamp
    &&& forall|i: int, j: int|
        0 <= i < j < l.orders@.len() ==> (#[trigger] l.orders@[i]).user != (
        #[trigger] l.orders@[j]).user
    &&& l.total == qty_sum(l.orders@)
}

/// Appending an order adds its quantity to the sum.
pub proof fn lemma_qty_sum_push(s: Seq<Order>, o: Order)
    ensures
        qty_sum(s.push(o)) == qty_sum(s) + o.quantity,
    decreases s.len(),
{
    if s.len() == 0 {
        assert(s.push(o)[0] == o);
        assert(s.push(o).drop_first() =~= Seq::<Order>::empty());
        assert(qty_sum(s.push(o).drop_first()) == 0);
        assert(qty_sum(s.push(o)) == o.quantity + 0);
    } else {
        assert(s.push(o)[0] == s[0]);
        assert(s.push(o).drop_first() =~= s.drop_first().push(o));
        lemma_qty_sum_push(s.drop_first(), o);
        assert(qty_sum(s.push(o)) == s[0].quantity + qty_sum(s.drop_first().push(o)));
    }
}

/// Levels strictly ordered best-to-worst for `side`: descending prices for
/// bids, ascending for asks (so prices are also distinct).
pub open spec fn levels_sorted(ls: Seq<PriceLevel>, side: Side) -> bool {
    forall|i: int, j: int|
        0 <= i < j < ls.len() ==> better_price(side, (#[trigger] ls[i]).price, (#[trigger] ls[j]).price)
}

/// The book of one symbol: two sequences of price levels, best first, a
/// per-symbol event sequence counter, and a bounded ring of recent fills
/// for match queries.
pub struct OrderBook {
    pub symbol: u64,
    pub bids: Vec<PriceLevel>,
    pub asks: Vec<PriceLevel>,
    pub next_seq: u64,
    pub fills: Vec<Fill>,
}

impl OrderBook {
    /// The levels of one side, best price first.
    pub open spec fn side_levels(self, side: Side) -> Seq<PriceLevel> {
        match side {
            Side::Buy => self.bids@,
            Side::Sell => self.asks@,
        }
    }

    /// Book invariant.  The final conjunct is the no-cross invariant: the
    /// best bid price is strictly below the best ask price whenever both
    /// sides are non-empty.
    pub open spec fn wf(self) -> bool {
        &&& forall|i: int|
            0 <= i < self.bids@.len() ==> level_wf(#[trigger] self.bids@[i], Side::Buy, self.symbol)
        &&& forall|i: int|
            0 <= i < self.asks@.len() ==> level_wf(#[trigger] self.asks@[i], Side::Sell, self.symbol)
        &&& levels_sorted(self.bids@, Side::Buy)
        &&& levels_sorted(self.asks@, Side::Sell)
        &&& self.bids@.len() > 0 && self.asks@.len() > 0 ==> self.bids@[0].price < self.asks@[0].price
    }

    /// The best (first) price of a side, if that side is non-empty.
    pub open spec fn spec_best_price(self, side: Side) -> Option<u64> {
        if self.side_levels(side).len() > 0 {
            Some(self.side_levels(side)[0].price)
        } else {
            None
        }
    }

    /// All orders resting on one side, in priority order.
    pub open spec fn side_flat(self, side: Side) -> Seq<Order> {
        flat(self.side_levels(side))
    }

    /// An empty book for `symbol`.
    pub fn new(symbol: u64) -> (r: OrderBook)
        ensures
            r.wf(),
            r.symbol == symbol,
            r.bids@.len() == 0,
            r.asks@.len() == 0,
            r.next_seq == 0,
            r.fills@.len() == 0,
    {
        OrderBook { symbol, bids: Vec::new(), asks: Vec::new(), next_seq: 0, fills: Vec::new() }
    }

    /// The best resting price of `side`, or `None` if that side is empty.
    pub fn best_price(&self, side: Side) -> (r: Option<u64>)
        ensures
            r == self.spec_best_price(side),
    {
        let levels: &Vec<PriceLevel> = match side {
            Side::Buy => &self.bids,
            Side::Sell => &self.asks,
        };
        if levels.len() > 0 {
            Some(levels[0].price)
        } else {
            None
        }
    }

    /// One add transaction under the symbol's exclusive section.  If the
    /// user already rests at this price on this side, the quantity merges
    /// into that order (coalescing) and nothing else happens.  Otherwise
    /// the order matches against the opposite side under price-time
    /// priority, trading at each resting order's price, and any residual
    /// quantity comes to rest at `price`.  Rejected without touching the
    /// book only when the aggregate resting quantity at this price would
    /// overflow.
    #[verifier::rlimit(100)]
    pub fn add_order(
        &mut self,
        user: u64,
        id: u64,
        timestamp: u64,
        side: Side,
        price: u64,
        qty: u64,
        fill_cap: usize,
    ) -> (r: Result<AddOutcome, ValidationError>)
        requires
            old(self).wf(),
            qty > 0,
            price > 0,
            forall|i: int|
                0 <= i < old(self).side_flat(side).len() ==> (#[trigger] old(self).side_flat(
                    side,
                )[i]).timestamp < timestamp,
            old(self).next_seq + 2 * old(self).side_flat(side.spec_other()).len() + 2 <= u64::MAX,
        ensures
            final(self).wf(),
            final(self).symbol == old(self).symbol,
            r is Err <==> add_overflow(old(self).side_levels(side), price, qty),
            r is Err ==> *final(self) == *old(self) && r == Result::<
                AddOutcome,
                ValidationError,
            >::Err(ValidationError::QuantityOverflow),
            (r matches Ok(out) && (exists|k: int|
                user_order_at(old(self).side_flat(side), user, price, k))) ==> exists|k: int|
                #![trigger user_order_at(old(self).side_flat(side), user, price, k)]
                {
                    let f0 = old(self).side_flat(side);
                    let out = r->Ok_0;
                    &&& user_order_at(f0, user, price, k)
                    &&& out.order_id == f0[k].id
                    &&& out.filled == 0
                    &&& out.avg_price is None
                    &&& flat(final(self).side_levels(side)) == f0.update(
                        k,
                        Order { quantity: (f0[k].quantity + qty) as u64, ..f0[k] },
                    )
                    &&& final(self).side_levels(side.spec_other()) == old(self).side_levels(
                        side.spec_other(),
                    )
                    &&& final(self).fills@ == old(self).fills@
                    &&& final(self).next_seq == old(self).next_seq + 1
                    &&& out.events@ == seq![
                        OrderEvent::Coalesced {
                            seq: old(self).next_seq,
                            id: f0[k].id,
                            side,
                            price,
                            added: qty,
                            new_quantity: (f0[k].quantity + qty) as u64,
                        },
                    ]
                },
            forall|b: u64|
                #![trigger stamps_below_flat(flat(final(self).side_levels(Side::Buy)), b)]
                (stamps_below_flat(old(self).side_flat(Side::Buy), b) && stamps_below_flat(
                    old(self).side_flat(Side::Sell),
                    b,
                ) && id < b && timestamp < b) ==> stamps_below_flat(
                    flat(final(self).side_levels(Side::Buy)),
                    b,
                ) && stamps_below_flat(flat(final(self).side_levels(Side::Sell)), b),
            (r matches Ok(out) && (forall|k: int|
                !user_order_at(old(self).side_flat(side), user, price, k))) ==> ({
                let out = r->Ok_0;
                let same0 = old(self).side_flat(side);
                let opp0 = old(self).side_flat(side.spec_other());
                let base = old(self).next_seq;
                let fc = full_count(opp0, side, price, qty as int);
                let pt = partial_take(opp0, side, price, qty as int);
                let n = fc + (if pt > 0 { 1int } else { 0int });
                let consumed = qty_sum(opp0.take(fc)) + pt;
                let rem = qty - consumed;
                let mfills = match_fills(opp0, fc, pt, base, old(self).symbol, side, user, id, n);
                let mevents = match_events(opp0, fc, pt, base, qty as int, side, id, n);
                let resid = Order {
                    id,
                    user,
                    symbol: old(self).symbol,
                    side,
                    price,
                    quantity: rem as u64,
                    timestamp,
                };
                &&& flat(final(self).side_levels(side.spec_other())) == matched_flat(opp0, fc, pt)
                &&& out.order_id == id
                &&& out.filled == consumed
                &&& out.avg_price == avg_fill_spec(mfills, side)
                &&& final(self).fills@ == capped(old(self).fills@ + mfills, fill_cap as int)
                &&& (rem > 0 ==> (exists|k2: int|
                    inserted_at(
                        same0,
                        flat(final(self).side_levels(side)),
                        side,
                        resid,
                        k2,
                    )) && out.events@ == mevents.push(
                    OrderEvent::Accepted { seq: (base + 2 * n) as u64, order: resid },
                ) && final(self).next_seq == base + 2 * n + 1)
                &&& (rem == 0 ==> final(self).side_levels(side) == old(self).side_levels(side)
                    && out.events@ == mevents && final(self).next_seq == base + 2 * n)
            }),
            r matches Ok(out) ==> add_rel(
                old(self).side_flat(side),
                old(self).side_flat(side.spec_other()),
                old(self).next_seq,
                old(self).fills@,
                *final(self),
                user,
                id,
                timestamp,
                side,
                price,
                qty,
                fill_cap as int,
                out,
            ),
    {
        let sym = self.symbol;
        // aggregate-overflow validation, before any mutation
        let pre_total = match side {
            Side::Buy => level_total_at(&self.bids, price),
            Side::Sell => level_total_at(&self.asks, price),
        };
        if let Some(t) = pre_total {
            if qty > u64::MAX - t {
                proof {
                    let same0 = old(self).side_levels(side);
                    let j = choose|j: int|
                        0 <= j < same0.len() && (#[trigger] same0[j]).price == price
                            && same0[j].total == t;
                    assert(add_overflow(same0, price, qty));
                }
                return Err(ValidationError::QuantityOverflow);
            }
        }
        proof {
            let same0 = old(self).side_levels(side);
            assert(!add_overflow(same0, price, qty)) by {
                if add_overflow(same0, price, qty) {
                    let j = choose|j: int|
                        0 <= j < same0.len() && (#[trigger] same0[j]).price == price
                            && same0[j].total + qty > u64::MAX;
                    assert(has_level(same0, price));
                    let j2 = choose|j2: int|
                        0 <= j2 < same0.len() && (#[trigger] same0[j2]).price == price
                            && same0[j2].total == pre_total->0;
                    if j != j2 {
                        assert(better_price(side, same0[j].price, same0[j2].price)
                            || better_price(side, same0[j2].price, same0[j].price));
                    }
                }
            }
        }
        let mut evs: Vec<OrderEvent> = Vec::new();
        // coalesce with the user's resting order at this price, if any
        let co = match side {
            Side::Buy => try_coalesce(
                &mut self.bids,
                side,
                sym,
                user,
                price,
                qty,
                &mut self.next_seq,
                &mut evs,
            ),
            Side::Sell => try_coalesce(
                &mut self.asks,
                side,
                sym,
                user,
                price,
                qty,
                &mut self.next_seq,
                &mut evs,
            ),
        };
        if let Some(co_hit) = co {
            let outcome = AddOutcome {
                order_id: co_hit.0,
                filled: 0,
                avg_price: None,
                events: evs,
            };
            proof {
                assert(forall|i: int|
                    0 <= i < self.side_levels(side).len() ==> (#[trigger] self.side_levels(
                        side,
                    )[i]).price == old(self).side_levels(side)[i].price);
                assert(add_rel(
                    old(self).side_flat(side),
                    old(self).side_flat(side.spec_other()),
                    old(self).next_seq,
                    old(self).fills@,
                    *self,
                    user,
                    id,
                    timestamp,
                    side,
                    price,
                    qty,
                    fill_cap as int,
                    outcome,
                ));
            }
            return Ok(outcome);
        }
        // match against the opposite side, best price first, oldest first
        let mut new_fills: Vec<Fill> = Vec::new();
        let rem = match side {
            Side::Buy => match_against(
                &mut self.asks,
                Side::Sell,
                sym,
                Side::Buy,
                user,
                id,
                price,
                qty,
                &mut self.next_seq,
                &mut evs,
                &mut new_fills,
            ),
            Side::Sell => match_against(
                &mut self.bids,
                Side::Buy,
                sym,
                Side::Sell,
                user,
                id,
                price,
                qty,
                &mut self.next_seq,
                &mut evs,
                &mut new_fills,
            ),
        };
        proof {
            let opp0 = old(self).side_flat(side.spec_other());
            let fc = full_count(opp0, side, price, qty as int);
            let pt = partial_take(opp0, side, price, qty as int);
            let n = fc + (if pt > 0 { 1int } else { 0int });
            lemma_match_bounds(opp0, side, price, qty as int);
            lemma_match_fills_sum(opp0, fc, pt, old(self).next_seq, sym, side, user, id);
            lemma_qty_sum_nonneg(opp0.take(fc));
            assert(evs@ =~= match_events(opp0, fc, pt, old(self).next_seq, qty as int, side, id, n));
            assert(new_fills@ =~= match_fills(
                opp0,
                fc,
                pt,
                old(self).next_seq,
                sym,
                side,
                user,
                id,
                n,
            ));
            assert forall|i: int|
                0 <= i < old(self).side_flat(side).len() && (#[trigger] old(self).side_flat(
                    side,
                )[i]).price == price implies old(self).side_flat(side)[i].user != user by {
                assert(!user_order_at(old(self).side_flat(side), user, price, i));
            }
        }
        let avg = avg_fill_price(&new_fills, side);
        // record the trades in the bounded ring
        let ghost s_bids = self.bids@;
        let ghost s_asks = self.asks@;
        let ghost s_seq = self.next_seq;
        let ghost s_fills = self.fills@;
        let mut fi: usize = 0;
        while fi < new_fills.len()
            invariant
                0 <= fi <= new_fills@.len(),
                self.bids@ == s_bids,
                self.asks@ == s_asks,
                self.next_seq == s_seq,
                self.symbol == sym,
                self.fills@ == s_fills + new_fills@.take(fi as int),
            decreases new_fills@.len() - fi,
        {
            let f = new_fills[fi];
            self.fills.push(f);
            proof {
                assert(new_fills@.take(fi as int + 1) =~= new_fills@.take(fi as int).push(
                    new_fills@[fi as int],
                ));
                assert(self.fills@ =~= s_fills + new_fills@.take(fi as int + 1));
            }
            fi += 1;
        }
        proof {
            assert(new_fills@.take(new_fills@.len() as int) =~= new_fills@);
        }
        enforce_cap(&mut self.fills, fill_cap);
        proof {
            let opp0 = old(self).side_flat(side.spec_other());
            let fc = full_count(opp0, side, price, qty as int);
            let pt = partial_take(opp0, side, price, qty as int);
            lemma_match_bounds(opp0, side, price, qty as int);
            assert(fc + (if pt > 0 { 1int } else { 0int }) <= opp0.len());
            assert(self.next_seq == old(self).next_seq + 2 * (fc + (if pt > 0 {
                1int
            } else {
                0int
            })));
        }
        // rest the residual at its original price
        if rem > 0 {
            let resid = Order { id, user, symbol: sym, side, price, quantity: rem, timestamp };
            match side {
                Side::Buy => insert_into_levels(&mut self.bids, side, sym, resid),
                Side::Sell => insert_into_levels(&mut self.asks, side, sym, resid),
            }
            let ev = OrderEvent::Accepted { seq: self.next_seq, order: resid };
            evs.push(ev);
            self.next_seq = self.next_seq + 1;
        }
        proof {
            lemma_add_no_cross(*old(self), *self, side, price, qty, rem as int);
            let same0 = old(self).side_flat(side);
            let opp0 = old(self).side_flat(side.spec_other());
            let base = old(self).next_seq;
            let fc = full_count(opp0, side, price, qty as int);
            let pt = partial_take(opp0, side, price, qty as int);
            let n = fc + (if pt > 0 { 1int } else { 0int });
            let consumed = qty_sum(opp0.take(fc)) + pt;
            let mfills = match_fills(opp0, fc, pt, base, sym, side, user, id, n);
            let mevents = match_events(opp0, fc, pt, base, qty as int, side, id, n);
            assert(flat(self.side_levels(side.spec_other())) == matched_flat(opp0, fc, pt));
            assert(qty - rem == consumed);
            assert(avg == avg_fill_spec(mfills, side));
            assert(self.fills@ == capped(old(self).fills@ + mfills, fill_cap as int));
            let resid = Order {
                id,
                user,
                symbol: old(self).symbol,
                side,
                price,
                quantity: (qty - consumed) as u64,
                timestamp,
            };
            if rem > 0 {
                assert(exists|k2: int|
                    inserted_at(same0, flat(self.side_levels(side)), side, resid, k2));
                assert(evs@ == mevents.push(
                    OrderEvent::Accepted { seq: (base + 2 * n) as u64, order: resid },
                ));
                assert(self.next_seq == base + 2 * n + 1);
            } else {
                assert(self.side_levels(side) == old(self).side_levels(side));
                assert(evs@ == mevents);
                assert(self.next_seq == base + 2 * n);
            }
        }
        let outcome = AddOutcome { order_id: id, filled: qty - rem, avg_price: avg, events: evs };
        proof {
            assert(add_rel(
                old(self).side_flat(side),
                old(self).side_flat(side.spec_other()),
                old(self).next_seq,
                old(self).fills@,
                *self,
                user,
                id,
                timestamp,
                side,
                price,
                qty,
                fill_cap as int,
                outcome,
            ));
        }
        Ok(outcome)
    }

    /// One cancel transaction: removes up to `qty` from the user's resting
    /// order at (side, price), oldest first.  Over-cancel removes only what
    /// exists; an unknown price or user cancels nothing, with no error.
    pub fn cancel_order(&mut self, user: u64, side: Side, price: u64, qty: u64) -> (r:
        CancelOutcome)
        requires
            old(self).wf(),
            qty > 0,
            old(self).next_seq < u64::MAX,
        ensures
            final(self).wf(),
            final(self).symbol == old(self).symbol,
            final(self).fills@ == old(self).fills@,
            final(self).side_levels(side.spec_other()) == old(self).side_levels(side.spec_other()),
            r.cancelled == 0 ==> {
                &&& *final(self) == *old(self)
                &&& r.events@ == Seq::<OrderEvent>::empty()
                &&& forall|k: int| !user_order_at(old(self).side_flat(side), user, price, k)
            },
            r.cancelled > 0 ==> exists|k: int|
                #![trigger user_order_at(old(self).side_flat(side), user, price, k)]
                {
                    let f0 = old(self).side_flat(side);
                    &&& user_order_at(f0, user, price, k)
                    &&& r.cancelled == (if qty < f0[k].quantity {
                        qty as int
                    } else {
                        f0[k].quantity as int
                    })
                    &&& flat(final(self).side_levels(side)) == (if qty < f0[k].quantity {
                        f0.update(k, Order { quantity: (f0[k].quantity - qty) as u64, ..f0[k] })
                    } else {
                        f0.remove(k)
                    })
                    &&& final(self).next_seq == old(self).next_seq + 1
                    &&& r.events@ == seq![
                        OrderEvent::Cancelled {
                            seq: old(self).next_seq,
                            id: f0[k].id,
                            side,
                            price,
                            removed: r.cancelled,
                            remaining: (f0[k].quantity - r.cancelled) as u64,
                        },
                    ]
                },
    {
        let sym = self.symbol;
        let mut evs: Vec<OrderEvent> = Vec::new();
        let c = match side {
            Side::Buy => cancel_in_levels(
                &mut self.bids,
                side,
                sym,
                user,
                price,
                qty,
                &mut self.next_seq,
                &mut evs,
            ),
            Side::Sell => cancel_in_levels(
                &mut self.asks,
                side,
                sym,
                user,
                price,
                qty,
                &mut self.next_seq,
                &mut evs,
            ),
        };
        proof {
            assert(old(self).side_flat(side) == flat(old(self).side_levels(side)));
            match side {
                Side::Buy => {
                    assert(old(self).side_levels(side) == old(self).bids@);
                    assert(self.side_levels(side) == self.bids@);
                }
                Side::Sell => {
                    assert(old(self).side_levels(side) == old(self).asks@);
                    assert(self.side_levels(side) == self.asks@);
                }
            }
            assert forall|i: int|
                0 <= i < self.side_levels(side).len() implies exists|j: int|
                    0 <= j < old(self).side_levels(side).len() && (#[trigger] self.side_levels(
                        side,
                    )[i]).price == old(self).side_levels(side)[j].price by {
                match side {
                    Side::Buy => {
                        assert(0 <= i < self.bids@.len());
                    }
                    Side::Sell => {
                        assert(0 <= i < self.asks@.len());
                    }
                }
            }
            lemma_cancel_no_cross(*old(self), *self, side);
        }
        CancelOutcome { cancelled: c, events: evs }
    }
}

/// After an add, the book still has no cross: the residual rests only when
/// it no longer crosses the (already matched) opposite side, and matching
/// only moves the opposite best price away.
pub proof fn lemma_add_no_cross(pre: OrderBook, post: OrderBook, side: Side, price: u64, qty: u64, rem: int)
    requires
        pre.wf(),
        rem >= 0,
        forall|i: int|
            0 <= i < post.bids@.len() ==> level_wf(#[trigger] post.bids@[i], Side::Buy, post.symbol),
        forall|i: int|
            0 <= i < post.asks@.len() ==> level_wf(#[trigger] post.asks@[i], Side::Sell, post.symbol),
        levels_sorted(post.bids@, Side::Buy),
        levels_sorted(post.asks@, Side::Sell),
        // the matched opposite side
        flat(post.side_levels(side.spec_other())) == matched_flat(
            pre.side_flat(side.spec_other()),
            full_count(pre.side_flat(side.spec_other()), side, price, qty as int),
            partial_take(pre.side_flat(side.spec_other()), side, price, qty as int),
        ),
        post.side_levels(side.spec_other()).len() > 0 ==> flat(
            post.side_levels(side.spec_other()),
        ).len() > 0 && post.side_levels(side.spec_other())[0].price == flat(
            post.side_levels(side.spec_other()),
        )[0].price,
        rem > 0 ==> post.side_levels(side.spec_other()).len() == 0 || !crosses(
            side,
            price,
            post.side_levels(side.spec_other())[0].price,
        ),
        // the residual side
        rem == 0 ==> post.side_levels(side) == pre.side_levels(side),
        rem > 0 ==> post.side_levels(side).len() > 0 && post.side_levels(side)[0].price == (if pre.side_levels(side).len() == 0 || better_price(side, price, pre.side_levels(side)[0].price) {
            price
        } else {
            pre.side_levels(side)[0].price
        }),
    ensures
        post.bids@.len() > 0 && post.asks@.len() > 0 ==> post.bids@[0].price < post.asks@[0].price,
{
    if post.bids@.len() > 0 && post.asks@.len() > 0 {
        match side {
            Side::Buy => {
                let opp0 = flat(pre.asks@);
                let fc = full_count(opp0, Side::Buy, price, qty as int);
                let pt = partial_take(opp0, Side::Buy, price, qty as int);
                lemma_match_bounds(opp0, Side::Buy, price, qty as int);
                // the surviving best ask is an old ask price, so no lower
                // than the old best ask
                let fpost = flat(post.asks@);
                assert(fpost.len() > 0);
                assert(fc < opp0.len());
                assert(fpost[0].price == opp0[fc].price) by {
                    if pt == 0 {
                        assert(fpost[0] == opp0.skip(fc)[0]);
                        assert(opp0.skip(fc)[0] == opp0[fc]);
                    } else {
                        assert(fpost[0] == opp0.skip(fc).update(
                            0,
                            Order { quantity: (opp0[fc].quantity - pt) as u64, ..opp0[fc] },
                        )[0]);
                    }
                }
                assert(pre.asks@.len() > 0) by {
                    if pre.asks@.len() == 0 {
                        assert(opp0 =~= Seq::<Order>::empty());
                    }
                }
                lemma_flat_prices(pre.asks@, Side::Sell, pre.symbol);
                let j = choose|j: int|
                    0 <= j < pre.asks@.len() && opp0[fc].price == (#[trigger] pre.asks@[j]).price;
                if j > 0 {
                    assert(better_price(Side::Sell, pre.asks@[0].price, pre.asks@[j].price));
                }
                assert(pre.asks@[0].price <= post.asks@[0].price);
                if rem > 0 {
                    assert(!crosses(Side::Buy, price, post.asks@[0].price));
                    if pre.bids@.len() > 0 && !better_price(Side::Buy, price, pre.bids@[0].price) {
                        assert(pre.bids@[0].price < pre.asks@[0].price);
                    }
                } else {
                    assert(post.bids@ == pre.bids@);
                    assert(pre.bids@[0].price < pre.asks@[0].price);
                }
            }
            Side::Sell => {
                let opp0 = flat(pre.bids@);
                let fc = full_count(opp0, Side::Sell, price, qty as int);
                let pt = partial_take(opp0, Side::Sell, price, qty as int);
                lemma_match_bounds(opp0, Side::Sell, price, qty as int);
                let fpost = flat(post.bids@);
                assert(fpost.len() > 0);
                assert(fc < opp0.len());
                assert(fpost[0].price == opp0[fc].price) by {
                    if pt == 0 {
                        assert(fpost[0] == opp0.skip(fc)[0]);
                        assert(opp0.skip(fc)[0] == opp0[fc]);
                    } else {
                        assert(fpost[0] == opp0.skip(fc).update(
                            0,
                            Order { quantity: (opp0[fc].quantity - pt) as u64, ..opp0[fc] },
                        )[0]);
                    }
                }
                assert(pre.bids@.len() > 0) by {
                    if pre.bids@.len() == 0 {
                        assert(opp0 =~= Seq::<Order>::empty());
                    }
                }
                lemma_flat_prices(pre.bids@, Side::Buy, pre.symbol);
                let j = choose|j: int|
                    0 <= j < pre.bids@.len() && opp0[fc].price == (#[trigger] pre.bids@[j]).price;
                if j > 0 {
                    assert(better_price(Side::Buy, pre.bids@[0].price, pre.bids@[j].price));
                }
                assert(post.bids@[0].price <= pre.bids@[0].price);
                if rem > 0 {
                    assert(!crosses(Side::Sell, price, post.bids@[0].price));
                    if pre.asks@.len() > 0 && !better_price(Side::Sell, price, pre.asks@[0].price) {
                        assert(pre.bids@[0].price < pre.asks@[0].price);
                    }
                } else {
                    assert(post.asks@ == pre.asks@);
                    assert(pre.bids@[0].price < pre.asks@[0].price);
                }
            }
        }
    }
}

/// Cancelling only removes liquidity: every surviving level keeps a price
/// the side already had, so the book cannot newly cross.
pub proof fn lemma_cancel_no_cross(pre: OrderBook, post: OrderBook, side: Side)
    requires
        pre.wf(),
        post.side_levels(side.spec_other()) == pre.side_levels(side.spec_other()),
        forall|i: int|
            0 <= i < post.side_levels(side).len() ==> exists|j: int|
                0 <= j < pre.side_levels(side).len() && (#[trigger] post.side_levels(
                    side,
                )[i]).price == pre.side_levels(side)[j].price,
    ensures
        post.bids@.len() > 0 && post.asks@.len() > 0 ==> post.bids@[0].price < post.asks@[0].price,
{
    if post.bids@.len() > 0 && post.asks@.len() > 0 {
        let j = choose|j: int|
            0 <= j < pre.side_levels(side).len() && post.side_levels(side)[0].price == (
            #[trigger] pre.side_levels(side)[j]).price;
        assert(pre.side_levels(side)[0].price == pre.side_levels(side)[0].price);
        if j > 0 {
            assert(better_price(
                side,
                pre.side_levels(side)[0].price,
                pre.side_levels(side)[j].price,
            ));
        }
        match side {
            Side::Buy => {
                assert(pre.bids@.len() > 0 && pre.asks@.len() > 0);
            }
            Side::Sell => {
                assert(pre.bids@.len() > 0 && pre.asks@.len() > 0);
            }
        }
    }
}

/// Whether some level in `ls` is priced exactly `p`.
pub open spec fn has_level(ls: Seq<PriceLevel>, p: u64) -> bool {
    exists|j: int| 0 <= j < ls.len() && (#[trigger] ls[j]).price == p
}

/// Order `o` went from priority sequence `f0` to `f1` by insertion at
/// position `k`: after every better-or-equally priced order and before
/// every strictly worse priced one.
pub open spec fn inserted_at(f0: Seq<Order>, f1: Seq<Order>, side: Side, o: Order, k: int) -> bool {
    &&& 0 <= k <= f0.len()
    &&& f1 == f0.take(k) + seq![o] + f0.skip(k)
    &&& forall|i: int| 0 <= i < k ==> !better_price(side, o.price, (#[trigger] f0[i]).price)
    &&& forall|i: int|
        k <= i < f0.len() ==> better_price(side, o.price, (#[trigger] f0[i]).price)
}

/// Rests `o` at the level for its price on one side, creating the level at
/// its sorted position if absent, appending at the tail of the level's FIFO
/// queue if present.  In the flattened priority sequence the order lands at
/// the unique position `k` after every better-or-equally priced resting
/// order and before every strictly worse priced one.
#[verifier::rlimit(100)]
#[verifier::spinoff_prover]
pub(crate) fn insert_into_levels(levels: &mut Vec<PriceLevel>, side: Side, symbol: u64, o: Order)
    requires
        forall|i: int|
            0 <= i < old(levels)@.len() ==> level_wf(#[trigger] old(levels)@[i], side, symbol),
        levels_sorted(old(levels)@, side),
        o.side == side,
        o.symbol == symbol,
        o.quantity > 0,
        forall|i: int|
            0 <= i < flat(old(levels)@).len() ==> (#[trigger] flat(old(levels)@)[i]).timestamp
                < o.timestamp,
        forall|i: int|
            0 <= i < flat(old(levels)@).len() && (#[trigger] flat(old(levels)@)[i]).price
                == o.price ==> flat(old(levels)@)[i].user != o.user,
        forall|j: int|
            0 <= j < old(levels)@.len() && (#[trigger] old(levels)@[j]).price == o.price ==> old(
                levels,
            )@[j].total + o.quantity <= u64::MAX,
    ensures
        forall|i: int|
            0 <= i < final(levels)@.len() ==> level_wf(#[trigger] final(levels)@[i], side, symbol),
        levels_sorted(final(levels)@, side),
        final(levels)@.len() > 0,
        final(levels)@[0].price == (if old(levels)@.len() == 0 || better_price(
            side,
            o.price,
            old(levels)@[0].price,
        ) {
            o.price
        } else {
            old(levels)@[0].price
        }),
        exists|k: int|
            #[trigger] inserted_at(flat(old(levels)@), flat(final(levels)@), side, o, k),
        forall|b: u64|
            #![trigger stamps_below_flat(flat(final(levels)@), b)]
            (stamps_below_flat(flat(old(levels)@), b) && o.id < b && o.timestamp < b)
                ==> stamps_below_flat(flat(final(levels)@), b),
{
    let ghost m0 = levels@;
    let ghost f0 = flat(levels@);
    let mut li: usize = 0;
    while li < levels.len() && price_better(side, levels[li].price, o.price)
        invariant
            0 <= li <= levels@.len(),
            levels@ == m0,
            forall|i: int| 0 <= i < li ==> better_price(side, (#[trigger] m0[i]).price, o.price),
        decreases levels@.len() - li,
    {
        li += 1;
    }
    proof {
        if li < m0.len() {
            lemma_flat_split(m0, li as int);
        }
        lemma_flat_prices(m0, side, symbol);
        lemma_flat_prices(m0.take(li as int), side, symbol);
    }
    let ghost fpre = flat(m0.take(li as int));
    // Every order before the found level is better priced than o; every
    // order from the found level on is worse or equal.
    assert(forall|i: int|
        0 <= i < fpre.len() ==> better_price(side, (#[trigger] fpre[i]).price, o.price)) by {
        assert forall|i: int|
            0 <= i < fpre.len() implies better_price(side, (#[trigger] fpre[i]).price, o.price) by {
            let tk = m0.take(li as int);
            let j = choose|j: int| 0 <= j < tk.len() && fpre[i].price == tk[j].price;
            assert(better_price(side, m0[j].price, o.price));
        }
    }
    if li < levels.len() && levels[li].price == o.price {
        // An existing level at this price: append at the tail of its queue.
        let mut lv = levels.remove(li);
        proof {
            lemma_qty_sum_push(lv.orders@, o);
        }
        lv.orders.push(o);
        lv.total = lv.total + o.quantity;
        levels.insert(li, lv);
        proof {
            let m1 = levels@;
            assert(m1 =~= m0.update(li as int, m1[li as int]));
            assert(m1[li as int].orders@ == m0[li as int].orders@.push(o));
            assert(m1.take(li as int) =~= m0.take(li as int));
            assert(m1.skip(li as int + 1) =~= m0.skip(li as int + 1));
            lemma_flat_split(m1, li as int);
            let k = fpre.len() as int + m0[li as int].orders@.len() as int;
            // the level's own orders sit at positions fpre.len() .. k of f0
            assert(forall|i: int|
                0 <= i < m0[li as int].orders@.len() ==> f0[fpre.len() + i] == (
                #[trigger] m0[li as int].orders@[i]));
            assert(level_wf(m0[li as int], side, symbol));
            assert forall|i: int| 0 <= i < k implies !better_price(
                side,
                o.price,
                (#[trigger] f0[i]).price,
            ) by {
                if i < fpre.len() {
                    assert(f0[i] == fpre[i]);
                } else {
                    assert(f0[i].price == o.price);
                }
            }
            assert forall|i: int| k <= i < f0.len() implies better_price(
                side,
                o.price,
                (#[trigger] f0[i]).price,
            ) by {
                let rest = m0.skip(li as int + 1);
                lemma_flat_prices(rest, side, symbol);
                assert(f0[i] == flat(rest)[i - k]);
                let j = choose|j: int| 0 <= j < rest.len() && flat(rest)[i - k].price == rest[j].price;
                assert(rest[j] == m0[li as int + 1 + j]);
                assert(better_price(side, m0[li as int].price, m0[li as int + 1 + j].price));
            }
            assert(flat(m1) =~= f0.take(k) + seq![o] + f0.skip(k));
            // time priority and user uniqueness inside the touched level
            assert forall|i: int|
                0 <= i < m1[li as int].orders@.len() - 1 implies (#[trigger] m1[li as int].orders@[i]).timestamp
                < o.timestamp && m1[li as int].orders@[i].user != o.user by {
                assert(m1[li as int].orders@[i] == m0[li as int].orders@[i]);
                assert(f0[fpre.len() + i] == m0[li as int].orders@[i]);
            }
            assert(level_wf(m1[li as int], side, symbol));
            assert(inserted_at(f0, flat(m1), side, o, k));
            lemma_insert_stamps(f0, flat(m1), side, o, k);
        }
    } else {
        // No level at this price yet: create one at the sorted position.
        let mut orders: Vec<Order> = Vec::new();
        orders.push(o);
        let lv = PriceLevel { price: o.price, total: o.quantity, orders };
        levels.insert(li, lv);
        proof {
            let m1 = levels@;
            assert(m1 =~= m0.take(li as int) + (seq![m1[li as int]] + m0.skip(li as int)));
            lemma_flat_concat(m0.take(li as int), seq![m1[li as int]] + m0.skip(li as int));
            lemma_flat_concat(seq![m1[li as int]], m0.skip(li as int));
            lemma_flat_single(m1[li as int]);
            let k = fpre.len() as int;
            assert(flat(m0.skip(li as int)) =~= f0.skip(k)) by {
                if li < m0.len() {
                    assert(m0.skip(li as int) =~= seq![m0[li as int]] + m0.skip(li as int + 1));
                    lemma_flat_concat(seq![m0[li as int]], m0.skip(li as int + 1));
                    lemma_flat_single(m0[li as int]);
                    assert(flat(m0.skip(li as int)) =~= f0.skip(k));
                } else {
                    assert(m0.take(li as int) =~= m0);
                    assert(fpre == f0);
                    assert(m0.skip(li as int) =~= Seq::<PriceLevel>::empty());
                    assert(flat(Seq::<PriceLevel>::empty()) =~= Seq::<Order>::empty());
                    assert(f0.skip(k) =~= Seq::<Order>::empty());
                }
            }
            assert(f0.take(k) =~= fpre) by {
                if li < m0.len() {
                } else {
                    assert(m0.take(li as int) =~= m0);
                }
            }
            assert(flat(m1) =~= f0.take(k) + seq![o] + f0.skip(k));
            // position characterization
            assert forall|i: int| k <= i < f0.len() implies better_price(
                side,
                o.price,
                (#[trigger] f0[i]).price,
            ) by {
                let rest = m0.skip(li as int);
                lemma_flat_prices(rest, side, symbol);
                assert(f0[i] == flat(rest)[i - k]);
                let j = choose|j: int| 0 <= j < rest.len() && flat(rest)[i - k].price == rest[j].price;
                assert(rest[j] == m0[li as int + j]);
                assert(!better_price(side, m0[li as int].price, o.price));
                assert(m0[li as int].price != o.price);
                if j > 0 {
                    assert(better_price(side, m0[li as int].price, m0[li as int + j].price));
                }
            }
            // sortedness of the new level sequence
            assert forall|i: int, j: int|
                0 <= i < j < m1.len() implies better_price(
                side,
                (#[trigger] m1[i]).price,
                (#[trigger] m1[j]).price,
            ) by {
                if i < li && j == li {
                    assert(m1[i] == m0[i]);
                } else if i == li && j > li {
                    assert(m1[j] == m0[j - 1]);
                    assert(!better_price(side, m0[li as int].price, o.price));
                    assert(m0[li as int].price != o.price);
                } else if i < li && j > li {
                    assert(m1[i] == m0[i] && m1[j] == m0[j - 1]);
                } else if i < li && j < li {
                    assert(m1[i] == m0[i] && m1[j] == m0[j]);
                } else {
                    assert(m1[i] == m0[i - 1] && m1[j] == m0[j - 1]);
                }
            }
            assert(level_wf(m1[li as int], side, symbol)) by {
                assert(m1[li as int].orders@ =~= seq![o]);
                assert(seq![o].drop_first() =~= Seq::<Order>::empty());
                assert(qty_sum(Seq::<Order>::empty()) == 0);
                assert(qty_sum(seq![o]) == seq![o][0].quantity + qty_sum(seq![o].drop_first()));
                assert(qty_sum(seq![o]) == o.quantity);
            }
            assert forall|i: int|
                0 <= i < m1.len() implies level_wf(#[trigger] m1[i], side, symbol) by {
                if i < li {
                    assert(m1[i] == m0[i]);
                } else if i > li {
                    assert(m1[i] == m0[i - 1]);
                }
            }
            assert(0 <= k <= f0.len()) by {
                if li < m0.len() {
                    assert(f0.len() == fpre.len() + m0[li as int].orders@.len() + flat(
                        m0.skip(li as int + 1),
                    ).len());
                } else {
                    assert(m0.take(li as int) =~= m0);
                    assert(fpre == f0);
                }
            }
            assert forall|i: int| 0 <= i < k implies !better_price(
                side,
                o.price,
                (#[trigger] f0[i]).price,
            ) by {
                assert(f0[i] == f0.take(k)[i]);
                assert(f0[i] == fpre[i]);
                assert(better_price(side, fpre[i].price, o.price));
            }
            assert(inserted_at(f0, flat(m1), side, o, k));
            lemma_insert_stamps(f0, flat(m1), side, o, k);
        }
    }
}

/// Insertion adds only the new order's stamp.
pub proof fn lemma_insert_stamps(f0: Seq<Order>, f1: Seq<Order>, side: Side, o: Order, k: int)
    requires
        inserted_at(f0, f1, side, o, k),
    ensures
        forall|b: u64|
            #![trigger stamps_below_flat(f1, b)]
            (stamps_below_flat(f0, b) && o.id < b && o.timestamp < b) ==> stamps_below_flat(f1, b),
{
    assert forall|b: u64|
        (stamps_below_flat(f0, b) && o.id < b && o.timestamp < b) implies stamps_below_flat(
        f1,
        b,
    ) by {
        assert forall|i: int|
            0 <= i < f1.len() implies (#[trigger] f1[i]).timestamp < b && f1[i].id < b by {
            if i < k {
                assert(f1[i] == f0.take(k)[i]);
                assert(f1[i] == f0[i]);
            } else if i == k {
                assert(f1[i] == o);
            } else {
                assert(f1[i] == f0.skip(k)[i - k - 1]);
                assert(f1[i] == f0[i - 1]);
            }
        }
    }
}

/// How many orders at the front of priority sequence `f` an incoming order
/// on `taker_side` with `limit` price and `budget` quantity consumes fully.
pub open spec fn full_count(f: Seq<Order>, taker_side: Side, limit: u64, budget: int) -> int
    decreases f.len(),
{
    if f.len() == 0 || budget <= 0 || !crosses(taker_side, limit, f[0].price) {
        0
    } else if f[0].quantity <= budget {
        1 + full_count(f.drop_first(), taker_side, limit, budget - f[0].quantity)
    } else {
        0
    }
}

/// The quantity the incoming order takes out of the first resting order it
/// does not consume fully (zero if it stops at a level boundary).
pub open spec fn partial_take(f: Seq<Order>, taker_side: Side, limit: u64, budget: int) -> int
    decreases f.len(),
{
    if f.len() == 0 || budget <= 0 || !crosses(taker_side, limit, f[0].price) {
        0
    } else if f[0].quantity <= budget {
        partial_take(f.drop_first(), taker_side, limit, budget - f[0].quantity)
    } else {
        budget
    }
}

/// Bounds of the match recursion: the full-fill count stays within the
/// sequence and the partial take within the budget.
pub proof fn lemma_match_bounds(f: Seq<Order>, taker_side: Side, limit: u64, budget: int)
    ensures
        0 <= full_count(f, taker_side, limit, budget) <= f.len(),
        0 <= partial_take(f, taker_side, limit, budget),
        budget >= 0 ==> partial_take(f, taker_side, limit, budget) <= budget,
        partial_take(f, taker_side, limit, budget) > 0 ==> full_count(f, taker_side, limit, budget)
            < f.len(),
    decreases f.len(),
{
    if f.len() > 0 && budget > 0 && crosses(taker_side, limit, f[0].price) && f[0].quantity
        <= budget {
        lemma_match_bounds(f.drop_first(), taker_side, limit, budget - f[0].quantity);
    }
}

/// The priority sequence left after matching: the fully consumed front
/// orders are gone and the first survivor may have lost `pt`.
pub open spec fn matched_flat(f: Seq<Order>, fc: int, pt: int) -> Seq<Order> {
    if pt == 0 {
        f.skip(fc)
    } else {
        f.skip(fc).update(
            0,
            Order { quantity: (f[fc].quantity - pt) as u64, ..f[fc] },
        )
    }
}

/// The `j`-th trade of a match, pairing resting order `f[j]` with the
/// incoming order.
pub open spec fn fill_of(
    f: Seq<Order>,
    j: int,
    fc: int,
    pt: int,
    base_seq: u64,
    symbol: u64,
    taker_side: Side,
    taker_user: u64,
    taker_id: u64,
) -> Fill {
    let maker = f[j];
    Fill {
        seq: (base_seq + 2 * j) as u64,
        symbol,
        price: maker.price,
        quantity: if j < fc {
            maker.quantity
        } else {
            pt as u64
        },
        buyer: if taker_side is Buy {
            taker_user
        } else {
            maker.user
        },
        seller: if taker_side is Buy {
            maker.user
        } else {
            taker_user
        },
        buy_order_id: if taker_side is Buy {
            taker_id
        } else {
            maker.id
        },
        sell_order_id: if taker_side is Buy {
            maker.id
        } else {
            taker_id
        },
    }
}

/// The resting-side event of the `j`-th trade of a match.
pub open spec fn maker_event_of(f: Seq<Order>, j: int, fc: int, pt: int, base_seq: u64) -> OrderEvent {
    let maker = f[j];
    if j < fc {
        OrderEvent::FullyFilled {
            seq: (base_seq + 2 * j) as u64,
            id: maker.id,
            side: maker.side,
            price: maker.price,
            filled: maker.quantity,
            resting: true,
        }
    } else {
        OrderEvent::PartiallyFilled {
            seq: (base_seq + 2 * j) as u64,
            id: maker.id,
            side: maker.side,
            price: maker.price,
            filled: pt as u64,
            remaining: (maker.quantity - pt) as u64,
            resting: true,
        }
    }
}

/// The incoming-side event of the `j`-th trade of a match.
pub open spec fn taker_event_of(
    f: Seq<Order>,
    j: int,
    fc: int,
    pt: int,
    base_seq: u64,
    budget: int,
    taker_side: Side,
    taker_id: u64,
) -> OrderEvent {
    let maker = f[j];
    let filled_j: u64 = if j < fc {
        maker.quantity
    } else {
        pt as u64
    };
    let cum = if j < fc {
        qty_sum(f.take(j + 1))
    } else {
        qty_sum(f.take(fc)) + pt
    };
    if budget - cum == 0 {
        OrderEvent::FullyFilled {
            seq: (base_seq + 2 * j + 1) as u64,
            id: taker_id,
            side: taker_side,
            price: maker.price,
            filled: filled_j,
            resting: false,
        }
    } else {
        OrderEvent::PartiallyFilled {
            seq: (base_seq + 2 * j + 1) as u64,
            id: taker_id,
            side: taker_side,
            price: maker.price,
            filled: filled_j,
            remaining: (budget - cum) as u64,
            resting: false,
        }
    }
}

/// The full event list of a match: for each trade the resting-side event
/// then the incoming-side event, with consecutive sequence numbers from
/// `base_seq`.
pub open spec fn match_events(
    f: Seq<Order>,
    fc: int,
    pt: int,
    base_seq: u64,
    budget: int,
    taker_side: Side,
    taker_id: u64,
    n: int,
) -> Seq<OrderEvent> {
    Seq::new(
        (2 * n) as nat,
        |i: int|
            if i % 2 == 0 {
                maker_event_of(f, i / 2, fc, pt, base_seq)
            } else {
                taker_event_of(f, i / 2, fc, pt, base_seq, budget, taker_side, taker_id)
            },
    )
}

/// The fill list of a match.
pub open spec fn match_fills(
    f: Seq<Order>,
    fc: int,
    pt: int,
    base_seq: u64,
    symbol: u64,
    taker_side: Side,
    taker_user: u64,
    taker_id: u64,
    n: int,
) -> Seq<Fill> {
    Seq::new(
        n as nat,
        |j: int| fill_of(f, j, fc, pt, base_seq, symbol, taker_side, taker_user, taker_id),
    )
}

/// Matches an incoming order against the resting opposite side under
/// price-time priority.  Trades happen at the resting order's price.  Fully
/// consumed resting orders leave their level, and a level whose queue
/// empties is removed at once.  Emits a resting-side and an incoming-side
/// event per trade and appends one `Fill` record per trade; returns the
/// incoming quantity left unmatched.
#[verifier::rlimit(100)]
pub(crate) fn match_against(
    levels: &mut Vec<PriceLevel>,
    resting_side: Side,
    symbol: u64,
    taker_side: Side,
    taker_user: u64,
    taker_id: u64,
    limit: u64,
    budget: u64,
    next_seq: &mut u64,
    evs: &mut Vec<OrderEvent>,
    new_fills: &mut Vec<Fill>,
) -> (remaining: u64)
    requires
        forall|i: int|
            0 <= i < old(levels)@.len() ==> level_wf(
                #[trigger] old(levels)@[i],
                resting_side,
                symbol,
            ),
        levels_sorted(old(levels)@, resting_side),
        resting_side == taker_side.spec_other(),
        *old(next_seq) + 2 * flat(old(levels)@).len() <= u64::MAX,
    ensures
        ({
            let f0 = flat(old(levels)@);
            let fc = full_count(f0, taker_side, limit, budget as int);
            let pt = partial_take(f0, taker_side, limit, budget as int);
            let n = fc + (if pt > 0 { 1int } else { 0int });
            &&& forall|i: int|
                0 <= i < final(levels)@.len() ==> level_wf(
                    #[trigger] final(levels)@[i],
                    resting_side,
                    symbol,
                )
            &&& levels_sorted(final(levels)@, resting_side)
            &&& flat(final(levels)@) == matched_flat(f0, fc, pt)
            &&& remaining == budget - qty_sum(f0.take(fc)) - pt
            &&& remaining > 0 ==> final(levels)@.len() == 0 || !crosses(
                taker_side,
                limit,
                final(levels)@[0].price,
            )
            &&& final(levels)@.len() > 0 ==> flat(final(levels)@).len() > 0
                && final(levels)@[0].price == flat(final(levels)@)[0].price
            &&& *final(next_seq) == *old(next_seq) + 2 * n
            &&& final(evs)@ == old(evs)@ + match_events(
                f0,
                fc,
                pt,
                *old(next_seq),
                budget as int,
                taker_side,
                taker_id,
                n,
            )
            &&& final(new_fills)@ == old(new_fills)@ + match_fills(
                f0,
                fc,
                pt,
                *old(next_seq),
                symbol,
                taker_side,
                taker_user,
                taker_id,
                n,
            )
            &&& forall|b: u64|
                #![trigger stamps_below_flat(flat(final(levels)@), b)]
                stamps_below_flat(f0, b) ==> stamps_below_flat(flat(final(levels)@), b)
        }),
{
    let ghost f0 = flat(levels@);
    let ghost base = *next_seq;
    let ghost evs0 = evs@;
    let ghost fills0 = new_fills@;
    let ghost fc = full_count(f0, taker_side, limit, budget as int);
    let ghost pt = partial_take(f0, taker_side, limit, budget as int);
    let mut rem: u64 = budget;
    let ghost mut cnt: int = 0;
    proof {
        lemma_match_bounds(f0, taker_side, limit, budget as int);
        assert(f0.take(0) =~= Seq::<Order>::empty());
        assert(f0.skip(0) =~= f0);
        assert(match_events(f0, fc, pt, base, budget as int, taker_side, taker_id, 0) =~= Seq::<
            OrderEvent,
        >::empty());
        assert(evs@ =~= evs0 + match_events(f0, fc, pt, base, budget as int, taker_side, taker_id, 0));
        assert(match_fills(f0, fc, pt, base, symbol, taker_side, taker_user, taker_id, 0)
            =~= Seq::<Fill>::empty());
        assert(new_fills@ =~= fills0 + match_fills(
            f0,
            fc,
            pt,
            base,
            symbol,
            taker_side,
            taker_user,
            taker_id,
            0,
        ));
    }
    while rem > 0 && levels.len() > 0 && price_crosses(taker_side, limit, levels[0].price)
        && levels[0].orders[0].quantity <= rem
        invariant
            forall|i: int|
                0 <= i < levels@.len() ==> level_wf(#[trigger] levels@[i], resting_side, symbol),
            levels_sorted(levels@, resting_side),
            resting_side == taker_side.spec_other(),
            fc == full_count(f0, taker_side, limit, budget as int),
            pt == partial_take(f0, taker_side, limit, budget as int),
            0 <= cnt <= f0.len(),
            flat(levels@) == f0.skip(cnt),
            rem == budget - qty_sum(f0.take(cnt)),
            rem >= 0,
            full_count(f0, taker_side, limit, budget as int) == cnt + full_count(
                flat(levels@),
                taker_side,
                limit,
                rem as int,
            ),
            partial_take(f0, taker_side, limit, budget as int) == partial_take(
                flat(levels@),
                taker_side,
                limit,
                rem as int,
            ),
            *next_seq == base + 2 * cnt,
            base + 2 * f0.len() <= u64::MAX,
            evs@ == evs0 + match_events(
                f0,
                fc,
                pt,
                base,
                budget as int,
                taker_side,
                taker_id,
                cnt,
            ),
            new_fills@ == fills0 + match_fills(
                f0,
                fc,
                pt,
                base,
                symbol,
                taker_side,
                taker_user,
                taker_id,
                cnt,
            ),
            forall|j: int| 0 <= j < cnt ==> f0[j].quantity <= budget - qty_sum(f0.take(j)),
            cnt <= fc,
        decreases flat(levels@).len(),
    {
        let maker = levels[0].orders[0];
        proof {
            assert(flat(levels@)[0] == levels@[0].orders@[0]);
            assert(f0.skip(cnt)[0] == f0[cnt]);
            assert(maker == f0[cnt]);
            // one more full fill happens
            assert(full_count(f0.skip(cnt), taker_side, limit, rem as int) == 1 + full_count(
                f0.skip(cnt).drop_first(),
                taker_side,
                limit,
                rem - maker.quantity,
            ));
            assert(partial_take(f0.skip(cnt), taker_side, limit, rem as int) == partial_take(
                f0.skip(cnt).drop_first(),
                taker_side,
                limit,
                rem - maker.quantity,
            ));
            assert(f0.skip(cnt).drop_first() =~= f0.skip(cnt + 1));
            lemma_match_bounds(
                f0.skip(cnt + 1),
                taker_side,
                limit,
                rem - maker.quantity,
            );
            assert(full_count(flat(levels@), taker_side, limit, rem as int) == 1 + full_count(
                f0.skip(cnt + 1),
                taker_side,
                limit,
                rem - maker.quantity,
            ));
            assert(full_count(f0.skip(cnt + 1), taker_side, limit, rem - maker.quantity) >= 0);
            assert(fc == cnt + full_count(flat(levels@), taker_side, limit, rem as int));
            assert(cnt < fc);
        }
        let maker_ev = OrderEvent::FullyFilled {
            seq: *next_seq,
            id: maker.id,
            side: maker.side,
            price: maker.price,
            filled: maker.quantity,
            resting: true,
        };
        evs.push(maker_ev);
        let rem_after: u64 = rem - maker.quantity;
        let taker_ev = if rem_after == 0 {
            OrderEvent::FullyFilled {
                seq: *next_seq + 1,
                id: taker_id,
                side: taker_side,
                price: maker.price,
                filled: maker.quantity,
                resting: false,
            }
        } else {
            OrderEvent::PartiallyFilled {
                seq: *next_seq + 1,
                id: taker_id,
                side: taker_side,
                price: maker.price,
                filled: maker.quantity,
                remaining: rem_after,
                resting: false,
            }
        };
        evs.push(taker_ev);
        let fill = Fill {
            seq: *next_seq,
            symbol,
            price: maker.price,
            quantity: maker.quantity,
            buyer: match taker_side {
                Side::Buy => taker_user,
                Side::Sell => maker.user,
            },
            seller: match taker_side {
                Side::Buy => maker.user,
                Side::Sell => taker_user,
            },
            buy_order_id: match taker_side {
                Side::Buy => taker_id,
                Side::Sell => maker.id,
            },
            sell_order_id: match taker_side {
                Side::Buy => maker.id,
                Side::Sell => taker_id,
            },
        };
        new_fills.push(fill);
        *next_seq = *next_seq + 2;
        rem = rem_after;
        let ghost pre_levels = levels@;
        let mut lv = levels.remove(0);
        let _consumed = lv.orders.remove(0);
        proof {
            assert(pre_levels[0].total == qty_sum(pre_levels[0].orders@));
            assert(qty_sum(pre_levels[0].orders@) == maker.quantity + qty_sum(
                pre_levels[0].orders@.drop_first(),
            ));
            lemma_qty_sum_nonneg(pre_levels[0].orders@.drop_first());
        }
        lv.total = lv.total - maker.quantity;
        let ghost lv_after = lv;
        if lv.orders.len() > 0 {
            levels.insert(0, lv);
        }
        proof {
            // the touched level stays well-formed when it survives
            assert(qty_sum(pre_levels[0].orders@) == maker.quantity + qty_sum(
                pre_levels[0].orders@.drop_first(),
            ));
            assert(lv_after.orders@ =~= pre_levels[0].orders@.drop_first());
            // flattened view moved forward by one order
            if lv_after.orders@.len() > 0 {
                assert(levels@ =~= pre_levels.update(0, lv_after));
                assert(levels@.drop_first() =~= pre_levels.drop_first());
                assert(flat(levels@) == lv_after.orders@ + flat(levels@.drop_first()));
                assert(flat(pre_levels) == pre_levels[0].orders@ + flat(pre_levels.drop_first()));
                assert(flat(levels@) =~= flat(pre_levels).drop_first());
                assert(level_wf(levels@[0], resting_side, symbol));
            } else {
                assert(levels@ =~= pre_levels.drop_first());
                assert(flat(pre_levels) == pre_levels[0].orders@ + flat(pre_levels.drop_first()));
                assert(pre_levels[0].orders@.len() == 1);
                assert(flat(levels@) =~= flat(pre_levels).drop_first());
            }
            assert(flat(levels@) =~= f0.skip(cnt + 1));
            // accounting
            assert(f0.take(cnt + 1) =~= f0.take(cnt).push(f0[cnt]));
            lemma_qty_sum_push(f0.take(cnt), f0[cnt]);
            // event and fill lists grew by exactly this trade
            assert(evs@ =~= evs0 + match_events(
                f0,
                fc,
                pt,
                base,
                budget as int,
                taker_side,
                taker_id,
                cnt + 1,
            ));
            assert(new_fills@ =~= fills0 + match_fills(
                f0,
                fc,
                pt,
                base,
                symbol,
                taker_side,
                taker_user,
                taker_id,
                cnt + 1,
            ));
            cnt = cnt + 1;
        }
    }
    // a final partial fill inside the front level, if the budget ran out
    // mid-order
    let partial_possible = rem > 0 && levels.len() > 0;
    if partial_possible && price_crosses(taker_side, limit, levels[0].price) {
        proof {
            assert(flat(levels@)[0] == levels@[0].orders@[0]);
            assert(f0.skip(cnt)[0] == f0[cnt]);
        }
        let maker = levels[0].orders[0];
        assert(maker.quantity > rem);
        let maker_ev = OrderEvent::PartiallyFilled {
            seq: *next_seq,
            id: maker.id,
            side: maker.side,
            price: maker.price,
            filled: rem,
            remaining: maker.quantity - rem,
            resting: true,
        };
        evs.push(maker_ev);
        let taker_ev = OrderEvent::FullyFilled {
            seq: *next_seq + 1,
            id: taker_id,
            side: taker_side,
            price: maker.price,
            filled: rem,
            resting: false,
        };
        evs.push(taker_ev);
        let fill = Fill {
            seq: *next_seq,
            symbol,
            price: maker.price,
            quantity: rem,
            buyer: match taker_side {
                Side::Buy => taker_user,
                Side::Sell => maker.user,
            },
            seller: match taker_side {
                Side::Buy => maker.user,
                Side::Sell => taker_user,
            },
            buy_order_id: match taker_side {
                Side::Buy => taker_id,
                Side::Sell => maker.id,
            },
            sell_order_id: match taker_side {
                Side::Buy => maker.id,
                Side::Sell => taker_id,
            },
        };
        new_fills.push(fill);
        *next_seq = *next_seq + 2;
        let ghost pre_levels = levels@;
        let mut lv = levels.remove(0);
        let mut mk = lv.orders.remove(0);
        proof {
            assert(pre_levels[0].total == qty_sum(pre_levels[0].orders@));
            assert(qty_sum(pre_levels[0].orders@) == maker.quantity + qty_sum(
                pre_levels[0].orders@.drop_first(),
            ));
            lemma_qty_sum_nonneg(pre_levels[0].orders@.drop_first());
            assert(mk == maker);
        }
        mk.quantity = mk.quantity - rem;
        lv.orders.insert(0, mk);
        lv.total = lv.total - rem;
        levels.insert(0, lv);
        let ghost took = rem;
        rem = 0;
        proof {
            let lv_after = levels@[0];
            assert(levels@ =~= pre_levels.update(0, lv_after));
            assert(levels@.drop_first() =~= pre_levels.drop_first());
            assert(lv_after.orders@ =~= pre_levels[0].orders@.update(0, mk));
            // quantity sum of the touched queue dropped by exactly `took`
            assert(qty_sum(pre_levels[0].orders@) == pre_levels[0].orders@[0].quantity + qty_sum(
                pre_levels[0].orders@.drop_first(),
            ));
            assert(qty_sum(lv_after.orders@) == mk.quantity + qty_sum(
                lv_after.orders@.drop_first(),
            ));
            assert(lv_after.orders@.drop_first() =~= pre_levels[0].orders@.drop_first());
            assert(level_wf(lv_after, resting_side, symbol));
            assert(flat(levels@) == lv_after.orders@ + flat(levels@.drop_first()));
            assert(flat(pre_levels) == pre_levels[0].orders@ + flat(pre_levels.drop_first()));
            assert(flat(levels@) =~= flat(pre_levels).update(0, mk));
            assert(full_count(f0.skip(cnt), taker_side, limit, took as int) == 0);
            assert(partial_take(f0.skip(cnt), taker_side, limit, took as int) == took);
            assert(fc == cnt && pt == took);
            assert(flat(levels@) =~= matched_flat(f0, fc, pt));
            assert(f0.take(cnt + 1) =~= f0.take(cnt).push(f0[cnt]));
            lemma_qty_sum_push(f0.take(cnt), f0[cnt]);
            assert(evs@ =~= evs0 + match_events(
                f0,
                fc,
                pt,
                base,
                budget as int,
                taker_side,
                taker_id,
                cnt + 1,
            ));
            assert(new_fills@ =~= fills0 + match_fills(
                f0,
                fc,
                pt,
                base,
                symbol,
                taker_side,
                taker_user,
                taker_id,
                cnt + 1,
            ));
        }
    } else {
        proof {
            assert(full_count(f0.skip(cnt), taker_side, limit, rem as int) == 0);
            assert(partial_take(f0.skip(cnt), taker_side, limit, rem as int) == 0);
            assert(fc == cnt && pt == 0);
            assert(matched_flat(f0, fc, pt) =~= f0.skip(cnt));
        }
    }
    proof {
        if levels@.len() > 0 {
            assert(flat(levels@)[0] == levels@[0].orders@[0]);
        }
        lemma_match_bounds(f0, taker_side, limit, budget as int);
        lemma_match_stamps(f0, flat(levels@), fc, pt);
    }
    rem
}

/// The cached total of the level priced `price`, if one exists.
pub(crate) fn level_total_at(levels: &Vec<PriceLevel>, price: u64) -> (r: Option<u64>)
    ensures
        r is Some <==> has_level(levels@, price),
        r is Some ==> exists|j: int|
            0 <= j < levels@.len() && (#[trigger] levels@[j]).price == price && levels@[j].total
                == r->0,
{
    let mut i: usize = 0;
    while i < levels.len()
        invariant
            0 <= i <= levels@.len(),
            forall|j: int| 0 <= j < i ==> (#[trigger] levels@[j]).price != price,
        decreases levels@.len() - i,
    {
        if levels[i].price == price {
            return Some(levels[i].total);
        }
        i += 1;
    }
    None
}

/// The position of `user`'s resting order at `price` in the flattened
/// priority sequence, if any.  By the book invariant there is at most one.
pub open spec fn user_order_at(f: Seq<Order>, user: u64, price: u64, k: int) -> bool {
    &&& 0 <= k < f.len()
    &&& f[k].user == user
    &&& f[k].price == price
}

/// Merges `qty` into the resting order of `user` at `price` on this side,
/// if one exists, emitting a `Coalesced` event.  Returns the surviving
/// order's id and its new quantity, or `None` (book untouched) when the
/// user has nothing resting at that price.
#[verifier::rlimit(60)]
pub(crate) fn try_coalesce(
    levels: &mut Vec<PriceLevel>,
    side: Side,
    symbol: u64,
    user: u64,
    price: u64,
    qty: u64,
    next_seq: &mut u64,
    evs: &mut Vec<OrderEvent>,
) -> (r: Option<(u64, u64)>)
    requires
        forall|i: int|
            0 <= i < old(levels)@.len() ==> level_wf(#[trigger] old(levels)@[i], side, symbol),
        levels_sorted(old(levels)@, side),
        qty > 0,
        *old(next_seq) < u64::MAX,
        forall|j: int|
            0 <= j < old(levels)@.len() && (#[trigger] old(levels)@[j]).price == price ==> old(
                levels,
            )@[j].total + qty <= u64::MAX,
    ensures
        forall|i: int|
            0 <= i < final(levels)@.len() ==> level_wf(#[trigger] final(levels)@[i], side, symbol),
        levels_sorted(final(levels)@, side),
        forall|b: u64|
            #![trigger stamps_below_flat(flat(final(levels)@), b)]
            stamps_below_flat(flat(old(levels)@), b) ==> stamps_below_flat(flat(final(levels)@), b),
        r is None ==> {
            &&& final(levels)@ == old(levels)@
            &&& final(evs)@ == old(evs)@
            &&& *final(next_seq) == *old(next_seq)
            &&& forall|k: int| !user_order_at(flat(old(levels)@), user, price, k)
        },
        r is Some ==> exists|k: int|
            #![trigger user_order_at(flat(old(levels)@), user, price, k)]
            {
                let f0 = flat(old(levels)@);
                &&& user_order_at(f0, user, price, k)
                &&& (r->0).0 == f0[k].id
                &&& (r->0).1 == f0[k].quantity + qty
                &&& flat(final(levels)@) == f0.update(
                    k,
                    Order { quantity: (f0[k].quantity + qty) as u64, ..f0[k] },
                )
                &&& final(levels)@.len() == old(levels)@.len()
                &&& forall|i: int|
                    0 <= i < old(levels)@.len() ==> (#[trigger] final(levels)@[i]).price == old(
                        levels,
                    )@[i].price
                &&& *final(next_seq) == *old(next_seq) + 1
                &&& final(evs)@ == old(evs)@.push(
                    OrderEvent::Coalesced {
                        seq: *old(next_seq),
                        id: f0[k].id,
                        side,
                        price,
                        added: qty,
                        new_quantity: (f0[k].quantity + qty) as u64,
                    },
                )
            },
{
    let ghost m0 = levels@;
    let ghost f0 = flat(levels@);
    let mut li: usize = 0;
    while li < levels.len() && levels[li].price != price
        invariant
            0 <= li <= levels@.len(),
            levels@ == m0,
            forall|j: int| 0 <= j < li ==> (#[trigger] m0[j]).price != price,
        decreases levels@.len() - li,
    {
        li += 1;
    }
    if li == levels.len() {
        proof {
            lemma_flat_prices(m0, side, symbol);
            assert forall|k: int| !user_order_at(f0, user, price, k) by {
                if 0 <= k < f0.len() {
                    let j = choose|j: int| 0 <= j < m0.len() && f0[k].price == m0[j].price;
                }
            }
        }
        return None;
    }
    let ghost li_g = li as int;
    proof {
        lemma_flat_split(m0, li_g);
    }
    let ghost fpre = flat(m0.take(li_g));
    let mut oi: usize = 0;
    while oi < levels[li].orders.len()
        invariant
            0 <= li < levels@.len(),
            li_g == li as int,
            levels@ == m0,
            m0 == old(levels)@,
            f0 == flat(m0),
            fpre == flat(m0.take(li_g)),
            evs@ == old(evs)@,
            *next_seq == *old(next_seq),
            *next_seq < u64::MAX,
            m0[li as int].price == price,
            qty > 0,
            forall|i: int| 0 <= i < m0.len() ==> level_wf(#[trigger] m0[i], side, symbol),
            levels_sorted(m0, side),
            forall|j: int|
                0 <= j < m0.len() && (#[trigger] m0[j]).price == price ==> m0[j].total + qty
                    <= u64::MAX,
            f0 == fpre + m0[li_g].orders@ + flat(m0.skip(li_g + 1)),
            0 <= oi <= m0[li as int].orders@.len(),
            forall|j: int| 0 <= j < oi ==> (#[trigger] m0[li as int].orders@[j]).user != user,
        decreases m0[li as int].orders@.len() - oi,
    {
        if levels[li].orders[oi].user == user {
            // the unique resting order of this user at this price
            let target = levels[li].orders[oi];
            proof {
                assert(level_wf(m0[li_g], side, symbol));
                lemma_qty_sum_elem(m0[li_g].orders@, oi as int);
                assert(m0[li_g].total + qty <= u64::MAX);
                lemma_qty_sum_update(m0[li_g].orders@, oi as int, qty as int);
            }
            let new_qty = target.quantity + qty;
            let mut lv = levels.remove(li);
            let mut ord = lv.orders.remove(oi);
            ord.quantity = new_qty;
            lv.orders.insert(oi, ord);
            lv.total = lv.total + qty;
            levels.insert(li, lv);
            let ev = OrderEvent::Coalesced {
                seq: *next_seq,
                id: target.id,
                side,
                price,
                added: qty,
                new_quantity: new_qty,
            };
            evs.push(ev);
            *next_seq = *next_seq + 1;
            proof {
                let m1 = levels@;
                let k = fpre.len() as int + oi as int;
                let upd = Order { quantity: new_qty, ..target };
                assert(m1 =~= m0.update(li_g, m1[li_g]));
                assert(m1[li_g].orders@ =~= m0[li_g].orders@.update(oi as int, upd));
                assert(m1.take(li_g) =~= m0.take(li_g));
                assert(m1.skip(li_g + 1) =~= m0.skip(li_g + 1));
                lemma_flat_split(m1, li_g);
                assert(forall|i: int|
                    0 <= i < m0[li_g].orders@.len() ==> f0[fpre.len() + i] == (
                    #[trigger] m0[li_g].orders@[i]));
                assert(f0[k] == target);
                assert(flat(m1) =~= f0.update(k, upd));
                assert(level_wf(m1[li_g], side, symbol)) by {
                    assert(forall|i: int|
                        0 <= i < m1[li_g].orders@.len() && i != oi ==> m1[li_g].orders@[i] == (
                        #[trigger] m0[li_g].orders@[i]));
                    assert(m1[li_g].orders@[oi as int] == upd);
                }
                assert(user_order_at(f0, user, price, k));
                assert forall|i: int|
                    0 <= i < m1.len() implies level_wf(#[trigger] m1[i], side, symbol) by {
                    if i != li_g {
                        assert(m1[i] == m0[i]);
                    }
                }
                assert(forall|i: int|
                    0 <= i < m1.len() ==> (#[trigger] m1[i]).price == m0[i].price);
                assert forall|i: int, j: int|
                    0 <= i < j < m1.len() implies better_price(
                    side,
                    (#[trigger] m1[i]).price,
                    (#[trigger] m1[j]).price,
                ) by {
                    assert(m1[i].price == m0[i].price);
                    assert(m1[j].price == m0[j].price);
                }
                let fold = flat(old(levels)@);
                assert(fold == f0);
                assert(user_order_at(fold, user, price, k));
                assert(target.id == fold[k].id);
                assert(new_qty == fold[k].quantity + qty);
                assert(flat(levels@) == fold.update(
                    k,
                    Order { quantity: (fold[k].quantity + qty) as u64, ..fold[k] },
                ));
                assert(levels@.len() == old(levels)@.len());
                assert(*next_seq == *old(next_seq) + 1);
                assert(evs@ == old(evs)@.push(
                    OrderEvent::Coalesced {
                        seq: *old(next_seq),
                        id: fold[k].id,
                        side,
                        price,
                        added: qty,
                        new_quantity: (fold[k].quantity + qty) as u64,
                    },
                ));
                lemma_update_stamps(f0, flat(m1), k, upd);
            }
            return Some((target.id, new_qty));
        }
        oi += 1;
    }
    proof {
        lemma_flat_prices(m0, side, symbol);
        assert forall|k: int| !user_order_at(f0, user, price, k) by {
            if 0 <= k < f0.len() && f0[k].price == price && f0[k].user == user {
                // the order would have to sit in the level priced `price`
                assert(f0 == fpre + m0[li_g].orders@ + flat(m0.skip(li_g + 1)));
                if k < fpre.len() {
                    lemma_flat_prices(m0.take(li_g), side, symbol);
                    let j = choose|j: int|
                        0 <= j < m0.take(li_g).len() && fpre[k].price == (#[trigger] m0.take(
                            li_g,
                        )[j]).price;
                    assert(better_price(side, m0[j].price, m0[li_g].price));
                    assert(false);
                } else if k < fpre.len() + m0[li_g].orders@.len() {
                    assert(f0[k] == m0[li_g].orders@[k - fpre.len()]);
                    assert(false);
                } else {
                    lemma_flat_prices(m0.skip(li_g + 1), side, symbol);
                    let kk = k - fpre.len() - m0[li_g].orders@.len();
                    assert(f0[k] == flat(m0.skip(li_g + 1))[kk]);
                    let j = choose|j: int|
                        0 <= j < m0.skip(li_g + 1).len() && flat(m0.skip(li_g + 1))[kk].price == (
                        #[trigger] m0.skip(li_g + 1)[j]).price;
                    assert(m0.skip(li_g + 1)[j] == m0[li_g + 1 + j]);
                    assert(better_price(side, m0[li_g].price, m0[li_g + 1 + j].price));
                    assert(false);
                }
            }
        }
    }
    None
}

/// No single order's quantity exceeds the sum of its queue.
pub proof fn lemma_qty_sum_elem(s: Seq<Order>, i: int)
    requires
        0 <= i < s.len(),
    ensures
        s[i].quantity <= qty_sum(s),
    decreases s.len(),
{
    if i == 0 {
        lemma_qty_sum_nonneg(s.drop_first());
    } else {
        lemma_qty_sum_elem(s.drop_first(), i - 1);
    }
}

/// A quantity update keeps every stamp.
pub proof fn lemma_update_stamps(f0: Seq<Order>, f1: Seq<Order>, k: int, upd: Order)
    requires
        0 <= k < f0.len(),
        f1 == f0.update(k, upd),
        upd.id == f0[k].id,
        upd.timestamp == f0[k].timestamp,
    ensures
        forall|b: u64|
            #![trigger stamps_below_flat(f1, b)]
            stamps_below_flat(f0, b) ==> stamps_below_flat(f1, b),
{
    assert forall|b: u64| stamps_below_flat(f0, b) implies stamps_below_flat(f1, b) by {
        assert forall|i: int|
            0 <= i < f1.len() implies (#[trigger] f1[i]).timestamp < b && f1[i].id < b by {
            if i != k {
                assert(f1[i] == f0[i]);
            }
        }
    }
}

/// A removal keeps every remaining stamp.
pub proof fn lemma_remove_stamps(f0: Seq<Order>, f1: Seq<Order>, k: int)
    requires
        0 <= k < f0.len(),
        f1 == f0.remove(k),
    ensures
        forall|b: u64|
            #![trigger stamps_below_flat(f1, b)]
            stamps_below_flat(f0, b) ==> stamps_below_flat(f1, b),
{
    assert forall|b: u64| stamps_below_flat(f0, b) implies stamps_below_flat(f1, b) by {
        assert forall|i: int|
            0 <= i < f1.len() implies (#[trigger] f1[i]).timestamp < b && f1[i].id < b by {
            if i < k {
                assert(f1[i] == f0[i]);
            } else {
                assert(f1[i] == f0[i + 1]);
            }
        }
    }
}

/// Matching keeps every surviving stamp.
pub proof fn lemma_match_stamps(f0: Seq<Order>, f1: Seq<Order>, fc: int, pt: int)
    requires
        0 <= fc <= f0.len(),
        0 <= pt,
        pt > 0 ==> fc < f0.len(),
        f1 == matched_flat(f0, fc, pt),
    ensures
        forall|b: u64|
            #![trigger stamps_below_flat(f1, b)]
            stamps_below_flat(f0, b) ==> stamps_below_flat(f1, b),
{
    assert forall|b: u64| stamps_below_flat(f0, b) implies stamps_below_flat(f1, b) by {
        assert forall|i: int|
            0 <= i < f1.len() implies (#[trigger] f1[i]).timestamp < b && f1[i].id < b by {
            if pt == 0 {
                assert(f1[i] == f0.skip(fc)[i]);
                assert(f1[i] == f0[fc + i]);
            } else if i == 0 {
                assert(f1[0] == Order { quantity: (f0[fc].quantity - pt) as u64, ..f0[fc] });
            } else {
                assert(f1[i] == f0.skip(fc)[i]);
                assert(f1[i] == f0[fc + i]);
            }
        }
    }
}

/// Updating one order's quantity moves the sum by the same amount.
pub proof fn lemma_qty_sum_update(s: Seq<Order>, i: int, add: int)
    requires
        0 <= i < s.len(),
        0 <= s[i].quantity + add <= u64::MAX,
    ensures
        qty_sum(s.update(i, Order { quantity: (s[i].quantity + add) as u64, ..s[i] })) == qty_sum(
            s,
        ) + add,
    decreases s.len(),
{
    let upd = Order { quantity: (s[i].quantity + add) as u64, ..s[i] };
    if i == 0 {
        assert(s.update(0, upd).drop_first() =~= s.drop_first());
        assert(s.update(0, upd)[0] == upd);
    } else {
        assert(s.update(i, upd)[0] == s[0]);
        assert(s.update(i, upd).drop_first() =~= s.drop_first().update(i - 1, upd));
        lemma_qty_sum_update(s.drop_first(), i - 1, add);
    }
}

/// Removing one order subtracts its quantity from the sum.
pub proof fn lemma_qty_sum_remove(s: Seq<Order>, i: int)
    requires
        0 <= i < s.len(),
    ensures
        qty_sum(s.remove(i)) == qty_sum(s) - s[i].quantity,
    decreases s.len(),
{
    if i == 0 {
        assert(s.remove(0) =~= s.drop_first());
    } else {
        assert(s.remove(i)[0] == s[0]);
        assert(s.remove(i).drop_first() =~= s.drop_first().remove(i - 1));
        lemma_qty_sum_remove(s.drop_first(), i - 1);
    }
}

/// Removes up to `want` from the resting order of `user` at `price` on this
/// side, oldest first (by the book invariant the user has at most one order
/// per price), emitting one `Cancelled` event carrying the quantity actually
/// removed.  Over-cancel removes only what exists; if the user has nothing
/// resting at that price the book is untouched and zero is returned.
#[verifier::rlimit(100)]
pub(crate) fn cancel_in_levels(
    levels: &mut Vec<PriceLevel>,
    side: Side,
    symbol: u64,
    user: u64,
    price: u64,
    want: u64,
    next_seq: &mut u64,
    evs: &mut Vec<OrderEvent>,
) -> (cancelled: u64)
    requires
        forall|i: int|
            0 <= i < old(levels)@.len() ==> level_wf(#[trigger] old(levels)@[i], side, symbol),
        levels_sorted(old(levels)@, side),
        want > 0,
        *old(next_seq) < u64::MAX,
    ensures
        forall|i: int|
            0 <= i < final(levels)@.len() ==> level_wf(#[trigger] final(levels)@[i], side, symbol),
        levels_sorted(final(levels)@, side),
        forall|i: int|
            0 <= i < final(levels)@.len() ==> exists|j: int|
                0 <= j < old(levels)@.len() && (#[trigger] final(levels)@[i]).price == old(
                    levels,
                )@[j].price,
        forall|b: u64|
            #![trigger stamps_below_flat(flat(final(levels)@), b)]
            stamps_below_flat(flat(old(levels)@), b) ==> stamps_below_flat(flat(final(levels)@), b),
        cancelled == 0 ==> {
            &&& *final(levels) == *old(levels)
            &&& final(evs)@ == old(evs)@
            &&& *final(next_seq) == *old(next_seq)
            &&& forall|k: int| !user_order_at(flat(old(levels)@), user, price, k)
        },
        cancelled > 0 ==> exists|k: int|
            #![trigger user_order_at(flat(old(levels)@), user, price, k)]
            {
                let f0 = flat(old(levels)@);
                &&& user_order_at(f0, user, price, k)
                &&& cancelled == (if want < f0[k].quantity {
                    want as int
                } else {
                    f0[k].quantity as int
                })
                &&& flat(final(levels)@) == (if want < f0[k].quantity {
                    f0.update(k, Order { quantity: (f0[k].quantity - want) as u64, ..f0[k] })
                } else {
                    f0.remove(k)
                })
                &&& *final(next_seq) == *old(next_seq) + 1
                &&& final(evs)@ == old(evs)@.push(
                    OrderEvent::Cancelled {
                        seq: *old(next_seq),
                        id: f0[k].id,
                        side,
                        price,
                        removed: cancelled,
                        remaining: (f0[k].quantity - cancelled) as u64,
                    },
                )
            },
{
    let ghost m0 = levels@;
    let ghost f0 = flat(levels@);
    let mut li: usize = 0;
    while li < levels.len() && levels[li].price != price
        invariant
            0 <= li <= levels@.len(),
            levels@ == m0,
            *levels == *old(levels),
            forall|j: int| 0 <= j < li ==> (#[trigger] m0[j]).price != price,
        decreases levels@.len() - li,
    {
        li += 1;
    }
    if li == levels.len() {
        proof {
            lemma_flat_prices(m0, side, symbol);
            assert forall|k: int| !user_order_at(f0, user, price, k) by {
                if 0 <= k < f0.len() {
                    let j = choose|j: int| 0 <= j < m0.len() && f0[k].price == m0[j].price;
                }
            }
        }
        return 0;
    }
    let ghost li_g = li as int;
    proof {
        lemma_flat_split(m0, li_g);
    }
    let ghost fpre = flat(m0.take(li_g));
    let mut oi: usize = 0;
    while oi < levels[li].orders.len()
        invariant
            0 <= li < levels@.len(),
            li_g == li as int,
            levels@ == m0,
            m0 == old(levels)@,
            f0 == flat(m0),
            fpre == flat(m0.take(li_g)),
            evs@ == old(evs)@,
            *next_seq == *old(next_seq),
            *next_seq < u64::MAX,
            m0[li as int].price == price,
            *levels == *old(levels),
            want > 0,
            forall|i: int| 0 <= i < m0.len() ==> level_wf(#[trigger] m0[i], side, symbol),
            levels_sorted(m0, side),
            f0 == fpre + m0[li_g].orders@ + flat(m0.skip(li_g + 1)),
            0 <= oi <= m0[li as int].orders@.len(),
            forall|j: int| 0 <= j < oi ==> (#[trigger] m0[li as int].orders@[j]).user != user,
        decreases m0[li as int].orders@.len() - oi,
    {
        if levels[li].orders[oi].user == user {
            let target = levels[li].orders[oi];
            let ghost k = fpre.len() as int + oi as int;
            proof {
                assert(level_wf(m0[li_g], side, symbol));
                lemma_qty_sum_elem(m0[li_g].orders@, oi as int);
                assert(forall|i: int|
                    0 <= i < m0[li_g].orders@.len() ==> f0[fpre.len() + i] == (
                    #[trigger] m0[li_g].orders@[i]));
                assert(f0[k] == target);
                assert(user_order_at(f0, user, price, k));
            }
            let removed: u64;
            if want < target.quantity {
                // partial cancel: the order survives with less quantity
                removed = want;
                let mut lv = levels.remove(li);
                let mut ord = lv.orders.remove(oi);
                proof {
                    lemma_qty_sum_update(m0[li_g].orders@, oi as int, -(want as int));
                }
                ord.quantity = ord.quantity - want;
                lv.orders.insert(oi, ord);
                lv.total = lv.total - want;
                levels.insert(li, lv);
                proof {
                    let m1 = levels@;
                    let upd = Order { quantity: (target.quantity - want) as u64, ..target };
                    assert(m1 =~= m0.update(li_g, m1[li_g]));
                    assert(m1[li_g].orders@ =~= m0[li_g].orders@.update(oi as int, upd));
                    assert(m1.take(li_g) =~= m0.take(li_g));
                    assert(m1.skip(li_g + 1) =~= m0.skip(li_g + 1));
                    lemma_flat_split(m1, li_g);
                    assert(flat(m1) =~= f0.update(k, upd));
                    assert(level_wf(m1[li_g], side, symbol)) by {
                        assert(forall|i: int|
                            0 <= i < m1[li_g].orders@.len() && i != oi ==> m1[li_g].orders@[i] == (
                            #[trigger] m0[li_g].orders@[i]));
                        assert(m1[li_g].orders@[oi as int] == upd);
                    }
                    assert forall|i: int|
                        0 <= i < m1.len() implies level_wf(#[trigger] m1[i], side, symbol) by {
                        if i != li_g {
                            assert(m1[i] == m0[i]);
                        }
                    }
                    assert(forall|i: int|
                        0 <= i < m1.len() ==> (#[trigger] m1[i]).price == m0[i].price);
                    assert forall|i: int, j: int|
                        0 <= i < j < m1.len() implies better_price(
                        side,
                        (#[trigger] m1[i]).price,
                        (#[trigger] m1[j]).price,
                    ) by {
                        assert(m1[i].price == m0[i].price);
                        assert(m1[j].price == m0[j].price);
                    }
                    assert forall|i: int|
                        0 <= i < m1.len() implies exists|j: int|
                            0 <= j < m0.len() && (#[trigger] m1[i]).price == m0[j].price by {
                        assert(m1[i].price == m0[i].price);
                    }
                    lemma_update_stamps(f0, flat(m1), k, upd);
                }
            } else {
                // full cancel: the order leaves, and its level too if empty
                removed = target.quantity;
                let mut lv = levels.remove(li);
                let _gone = lv.orders.remove(oi);
                proof {
                    lemma_qty_sum_remove(m0[li_g].orders@, oi as int);
                    lemma_qty_sum_nonneg(m0[li_g].orders@.remove(oi as int));
                }
                lv.total = lv.total - target.quantity;
                let lv_alive = lv.orders.len() > 0;
                if lv_alive {
                    levels.insert(li, lv);
                }
                proof {
                    let m1 = levels@;
                    if lv_alive {
                        assert(m1 =~= m0.update(li_g, m1[li_g]));
                        assert(m1[li_g].orders@ =~= m0[li_g].orders@.remove(oi as int));
                        assert(m1.take(li_g) =~= m0.take(li_g));
                        assert(m1.skip(li_g + 1) =~= m0.skip(li_g + 1));
                        lemma_flat_split(m1, li_g);
                        assert(flat(m1) =~= f0.remove(k));
                        assert(level_wf(m1[li_g], side, symbol)) by {
                            assert(forall|i: int|
                                0 <= i < oi ==> m1[li_g].orders@[i] == (
                                #[trigger] m0[li_g].orders@[i]));
                            assert(forall|i: int|
                                oi <= i < m1[li_g].orders@.len() ==> (
                                #[trigger] m1[li_g].orders@[i]) == m0[li_g].orders@[i + 1]);
                        }
                        assert forall|i: int|
                            0 <= i < m1.len() implies level_wf(#[trigger] m1[i], side, symbol) by {
                            if i != li_g {
                                assert(m1[i] == m0[i]);
                            }
                        }
                        assert(forall|i: int|
                            0 <= i < m1.len() ==> (#[trigger] m1[i]).price == m0[i].price);
                        assert forall|i: int, j: int|
                            0 <= i < j < m1.len() implies better_price(
                            side,
                            (#[trigger] m1[i]).price,
                            (#[trigger] m1[j]).price,
                        ) by {
                            assert(m1[i].price == m0[i].price);
                            assert(m1[j].price == m0[j].price);
                        }
                        assert forall|i: int|
                            0 <= i < m1.len() implies exists|j: int|
                                0 <= j < m0.len() && (#[trigger] m1[i]).price == m0[j].price by {
                            assert(m1[i].price == m0[i].price);
                        }
                        lemma_remove_stamps(f0, flat(m1), k);
                    } else {
                        assert(m0[li_g].orders@.len() == 1);
                        assert(oi == 0);
                        assert(m1 =~= m0.remove(li_g));
                        assert(m1 =~= m0.take(li_g) + m0.skip(li_g + 1));
                        lemma_flat_concat(m0.take(li_g), m0.skip(li_g + 1));
                        assert(flat(m1) =~= f0.remove(k));
                        assert forall|i: int|
                            0 <= i < m1.len() implies level_wf(#[trigger] m1[i], side, symbol) by {
                            if i < li_g {
                                assert(m1[i] == m0[i]);
                            } else {
                                assert(m1[i] == m0[i + 1]);
                            }
                        }
                        assert forall|i: int, j: int|
                            0 <= i < j < m1.len() implies better_price(
                            side,
                            (#[trigger] m1[i]).price,
                            (#[trigger] m1[j]).price,
                        ) by {
                            if i < li_g {
                                assert(m1[i] == m0[i]);
                            } else {
                                assert(m1[i] == m0[i + 1]);
                            }
                            if j < li_g {
                                assert(m1[j] == m0[j]);
                            } else {
                                assert(m1[j] == m0[j + 1]);
                            }
                        }
                        assert forall|i: int|
                            0 <= i < m1.len() implies exists|j: int|
                                0 <= j < m0.len() && (#[trigger] m1[i]).price == m0[j].price by {
                            if i < li_g {
                                assert(m1[i].price == m0[i].price);
                            } else {
                                assert(m1[i].price == m0[i + 1].price);
                            }
                        }
                        lemma_remove_stamps(f0, flat(m1), k);
                    }
                }
            }
            let ev = OrderEvent::Cancelled {
                seq: *next_seq,
                id: target.id,
                side,
                price,
                removed,
                remaining: target.quantity - removed,
            };
            evs.push(ev);
            *next_seq = *next_seq + 1;
            return removed;
        }
        oi += 1;
    }
    proof {
        lemma_flat_prices(m0, side, symbol);
        assert forall|k: int| !user_order_at(f0, user, price, k) by {
            if 0 <= k < f0.len() && f0[k].price == price && f0[k].user == user {
                assert(f0 == fpre + m0[li_g].orders@ + flat(m0.skip(li_g + 1)));
                if k < fpre.len() {
                    lemma_flat_prices(m0.take(li_g), side, symbol);
                    let j = choose|j: int|
                        0 <= j < m0.take(li_g).len() && fpre[k].price == (#[trigger] m0.take(
                            li_g,
                        )[j]).price;
                    assert(better_price(side, m0[j].price, m0[li_g].price));
                    assert(false);
                } else if k < fpre.len() + m0[li_g].orders@.len() {
                    assert(f0[k] == m0[li_g].orders@[k - fpre.len()]);
                    assert(false);
                } else {
                    lemma_flat_prices(m0.skip(li_g + 1), side, symbol);
                    let kk = k - fpre.len() - m0[li_g].orders@.len();
                    assert(f0[k] == flat(m0.skip(li_g + 1))[kk]);
                    let j = choose|j: int|
                        0 <= j < m0.skip(li_g + 1).len() && flat(m0.skip(li_g + 1))[kk].price == (
                        #[trigger] m0.skip(li_g + 1)[j]).price;
                    assert(m0.skip(li_g + 1)[j] == m0[li_g + 1 + j]);
                    assert(better_price(side, m0[li_g].price, m0[li_g + 1 + j].price));
                    assert(false);
                }
            }
        }
    }
    0
}

/// Total quantity traded over a list of fills.
pub open spec fn fills_qty_sum(fs: Seq<Fill>) -> int
    decreases fs.len(),
{
    if fs.len() == 0 {
        0
    } else {
        fs[0].quantity + fills_qty_sum(fs.drop_first())
    }
}

/// Total notional (quantity times price) traded over a list of fills.
pub open spec fn notional_sum(fs: Seq<Fill>) -> int
    decreases fs.len(),
{
    if fs.len() == 0 {
        0
    } else {
        fs[0].quantity * fs[0].price + notional_sum(fs.drop_first())
    }
}

/// The quantity-weighted average price of a list of fills, rounded to the
/// nearest price increment with ties rounded toward the resting side's
/// favour: up when the incoming order buys, down when it sells.
pub open spec fn avg_fill_spec(fs: Seq<Fill>, taker_side: Side) -> Option<u64> {
    let den = fills_qty_sum(fs);
    if den == 0 {
        None
    } else {
        let num = notional_sum(fs);
        let q = num / den;
        let r = num % den;
        if 2 * r > den {
            Some((q + 1) as u64)
        } else if 2 * r < den {
            Some(q as u64)
        } else if taker_side is Buy {
            Some((q + 1) as u64)
        } else {
            Some(q as u64)
        }
    }
}

/// Splitting a fill list splits both sums.
pub proof fn lemma_fill_sums_split(fs: Seq<Fill>, i: int)
    requires
        0 <= i <= fs.len(),
    ensures
        fills_qty_sum(fs) == fills_qty_sum(fs.take(i)) + fills_qty_sum(fs.skip(i)),
        notional_sum(fs) == notional_sum(fs.take(i)) + notional_sum(fs.skip(i)),
    decreases i,
{
    if i == 0 {
        assert(fs.take(0) =~= Seq::<Fill>::empty());
        assert(fs.skip(0) =~= fs);
    } else {
        lemma_fill_sums_split(fs, i - 1);
        assert(fs.take(i) =~= fs.take(i - 1).push(fs[i - 1]));
        lemma_fill_push_step(fs.take(i - 1), fs[i - 1]);
        assert(fs.skip(i - 1).len() > 0);
        assert(fs.skip(i - 1)[0] == fs[i - 1]);
        assert(fs.skip(i - 1).drop_first() =~= fs.skip(i));
        assert(fills_qty_sum(fs.skip(i - 1)) == fs[i - 1].quantity + fills_qty_sum(
            fs.skip(i - 1).drop_first(),
        ));
        assert(notional_sum(fs.skip(i - 1)) == fs[i - 1].quantity * fs[i - 1].price + notional_sum(
            fs.skip(i - 1).drop_first(),
        ));
    }
}

/// Appending a fill adds its quantity and notional to the sums.
pub proof fn lemma_fill_push_step(fs: Seq<Fill>, x: Fill)
    ensures
        fills_qty_sum(fs.push(x)) == fills_qty_sum(fs) + x.quantity,
        notional_sum(fs.push(x)) == notional_sum(fs) + x.quantity * x.price,
    decreases fs.len(),
{
    if fs.len() == 0 {
        assert(fs.push(x)[0] == x);
        assert(fs.push(x).drop_first() =~= Seq::<Fill>::empty());
        assert(fills_qty_sum(fs.push(x)) == x.quantity + fills_qty_sum(fs.push(x).drop_first()));
        assert(notional_sum(fs.push(x)) == x.quantity * x.price + notional_sum(
            fs.push(x).drop_first(),
        ));
    } else {
        assert(fs.push(x)[0] == fs[0]);
        assert(fs.push(x).drop_first() =~= fs.drop_first().push(x));
        lemma_fill_push_step(fs.drop_first(), x);
        assert(fills_qty_sum(fs.push(x)) == fs[0].quantity + fills_qty_sum(
            fs.drop_first().push(x),
        ));
        assert(notional_sum(fs.push(x)) == fs[0].quantity * fs[0].price + notional_sum(
            fs.drop_first().push(x),
        ));
    }
}

/// Fill sums are never negative.
pub proof fn lemma_fill_sums_nonneg(fs: Seq<Fill>)
    ensures
        fills_qty_sum(fs) >= 0,
        notional_sum(fs) >= 0,
    decreases fs.len(),
{
    if fs.len() > 0 {
        lemma_fill_sums_nonneg(fs.drop_first());
        assert(fs[0].quantity * fs[0].price >= 0) by (nonlinear_arith);
    }
}

/// The quantity-weighted average price of `fills`, rounded to the nearest
/// increment, ties toward the resting side's favour.  `None` when nothing
/// traded.
pub(crate) fn avg_fill_price(fills: &Vec<Fill>, taker_side: Side) -> (r: Option<u64>)
    requires
        fills_qty_sum(fills@) <= u64::MAX,
    ensures
        r == avg_fill_spec(fills@, taker_side),
{
    let ghost m = u64::MAX as int;
    let mut filled: u64 = 0;
    let mut notional: u128 = 0;
    let mut i: usize = 0;
    while i < fills.len()
        invariant
            0 <= i <= fills@.len(),
            filled == fills_qty_sum(fills@.take(i as int)),
            notional == notional_sum(fills@.take(i as int)),
            notional <= filled * (u64::MAX as int),
            fills_qty_sum(fills@) <= u64::MAX,
            m == u64::MAX as int,
        decreases fills@.len() - i,
    {
        let f = fills[i];
        proof {
            assert(fills@.take(i as int + 1) =~= fills@.take(i as int).push(fills@[i as int]));
            lemma_fill_push_step(fills@.take(i as int), fills@[i as int]);
            lemma_fill_sums_split(fills@, i as int + 1);
            lemma_fill_sums_nonneg(fills@.skip(i as int + 1));
            assert(filled + f.quantity <= u64::MAX);
            assert(f.quantity * f.price <= m * m) by (nonlinear_arith)
                requires
                    0 <= f.quantity <= m,
                    0 <= f.price <= m,
            ;
            assert(f.quantity * f.price <= f.quantity * m) by (nonlinear_arith)
                requires
                    0 <= f.quantity,
                    0 <= f.price <= m,
            ;
            assert(notional + f.quantity * f.price <= (filled + f.quantity) * m)
                by (nonlinear_arith)
                requires
                    notional <= filled * m,
                    f.quantity * f.price <= f.quantity * m,
                    0 <= filled,
                    0 <= f.quantity,
                    0 <= m,
            ;
            assert((filled + f.quantity) * m <= m * m) by (nonlinear_arith)
                requires
                    0 <= filled + f.quantity <= m,
                    0 <= m,
            ;
        }
        filled = filled + f.quantity;
        notional = notional + (f.quantity as u128) * (f.price as u128);
        i += 1;
    }
    proof {
        assert(fills@.take(i as int) =~= fills@);
    }
    if filled == 0 {
        proof {
            lemma_fill_sums_nonneg(fills@);
        }
        return None;
    }
    let den: u128 = filled as u128;
    let q: u128 = notional / den;
    let r: u128 = notional % den;
    proof {
        assert(notional == den * q + r) by {
            vstd::arithmetic::div_mod::lemma_fundamental_div_mod(
                notional as int,
                den as int,
            );
        }
        assert(q <= m) by {
            if q > m {
                assert(den * q >= den * (m + 1)) by (nonlinear_arith)
                    requires
                        q >= m + 1,
                        den >= 1,
                ;
                assert(den * (m + 1) == den * m + den) by (nonlinear_arith);
                assert(notional > filled * m);
            }
        }
        assert(q == m ==> r == 0) by {
            if q == m && r > 0 {
                assert(den * q == den * m) by (nonlinear_arith)
                    requires
                        q == m,
                ;
                assert(notional > filled * m);
            }
        }
    }
    let double_r: u128 = 2 * r;
    if double_r > den {
        Some((q + 1) as u64)
    } else if double_r < den {
        Some(q as u64)
    } else {
        match taker_side {
            Side::Buy => Some((q + 1) as u64),
            Side::Sell => Some(q as u64),
        }
    }
}

/// Keeps only the `cap` most recent entries of the fill ring.
pub(crate) fn enforce_cap(fills: &mut Vec<Fill>, cap: usize)
    ensures
        final(fills)@ == (if old(fills)@.len() <= cap {
            old(fills)@
        } else {
            old(fills)@.skip(old(fills)@.len() - cap)
        }),
{
    let ghost r0 = fills@;
    proof {
        assert(r0.skip(0) =~= r0);
        assert(fills@ == r0.skip(0));
    }
    while fills.len() > cap
        invariant
            exists|d: int|
                0 <= d <= r0.len() && fills@ == r0.skip(d) && (d > 0 ==> r0.len() - d >= cap),
        decreases fills@.len(),
    {
        let ghost pre = fills@;
        let _dropped = fills.remove(0);
        proof {
            let d = choose|d: int|
                0 <= d <= r0.len() && pre == r0.skip(d) && (d > 0 ==> r0.len() - d >= cap);
            assert(fills@ =~= r0.skip(d + 1));
        }
    }
    proof {
        let d = choose|d: int|
            0 <= d <= r0.len() && fills@ == r0.skip(d) && (d > 0 ==> r0.len() - d >= cap);
        if r0.len() <= cap {
            assert(d == 0 || r0.len() - d >= cap);
            assert(d == 0);
            assert(r0.skip(0) =~= r0);
        } else {
            assert(fills@.len() == r0.len() - d);
            assert(fills@.len() <= cap);
            assert(r0.len() - d == cap);
            assert(fills@ =~= r0.skip(r0.len() - cap));
        }
    }
}

/// The `cap` most recent entries of a fill ring.
pub open spec fn capped(s: Seq<Fill>, cap: int) -> Seq<Fill> {
    if s.len() <= cap {
        s
    } else {
        s.skip(s.len() - cap)
    }
}

/// The total quantity of the fills of a match up to `m` full trades equals
/// the quantity of the consumed resting orders.
pub proof fn lemma_match_fills_prefix_sum(
    f: Seq<Order>,
    fc: int,
    pt: int,
    base_seq: u64,
    symbol: u64,
    taker_side: Side,
    taker_user: u64,
    taker_id: u64,
    m: int,
)
    requires
        0 <= m <= fc <= f.len(),
    ensures
        fills_qty_sum(match_fills(f, fc, pt, base_seq, symbol, taker_side, taker_user, taker_id, m))
            == qty_sum(f.take(m)),
    decreases m,
{
    let fsq = match_fills(f, fc, pt, base_seq, symbol, taker_side, taker_user, taker_id, m);
    if m == 0 {
        assert(f.take(0) =~= Seq::<Order>::empty());
        assert(fsq =~= Seq::<Fill>::empty());
    } else {
        lemma_match_fills_prefix_sum(
            f,
            fc,
            pt,
            base_seq,
            symbol,
            taker_side,
            taker_user,
            taker_id,
            m - 1,
        );
        let prev = match_fills(f, fc, pt, base_seq, symbol, taker_side, taker_user, taker_id, m - 1);
        assert(fsq =~= prev.push(fill_of(f, m - 1, fc, pt, base_seq, symbol, taker_side, taker_user, taker_id)));
        lemma_fill_push_step(prev, fill_of(f, m - 1, fc, pt, base_seq, symbol, taker_side, taker_user, taker_id));
        assert(f.take(m) =~= f.take(m - 1).push(f[m - 1]));
        lemma_qty_sum_push(f.take(m - 1), f[m - 1]);
    }
}

/// Total fill quantity of a whole match: the consumed full orders plus the
/// partial take.
pub proof fn lemma_match_fills_sum(
    f: Seq<Order>,
    fc: int,
    pt: int,
    base_seq: u64,
    symbol: u64,
    taker_side: Side,
    taker_user: u64,
    taker_id: u64,
)
    requires
        0 <= fc <= f.len(),
        0 <= pt <= u64::MAX,
        pt > 0 ==> fc < f.len(),
    ensures
        ({
            let n = fc + (if pt > 0 { 1int } else { 0int });
            fills_qty_sum(match_fills(f, fc, pt, base_seq, symbol, taker_side, taker_user, taker_id, n))
                == qty_sum(f.take(fc)) + pt
        }),
{
    lemma_match_fills_prefix_sum(f, fc, pt, base_seq, symbol, taker_side, taker_user, taker_id, fc);
    if pt > 0 {
        let prev = match_fills(f, fc, pt, base_seq, symbol, taker_side, taker_user, taker_id, fc);
        let fsq = match_fills(f, fc, pt, base_seq, symbol, taker_side, taker_user, taker_id, fc + 1);
        assert(fsq =~= prev.push(fill_of(f, fc, fc, pt, base_seq, symbol, taker_side, taker_user, taker_id)));
        lemma_fill_push_step(prev, fill_of(f, fc, fc, pt, base_seq, symbol, taker_side, taker_user, taker_id));
    }
}

/// The full effect of one successful add on a book, over the pre-state's
/// flattened sides (`pre_same` the incoming order's side, `pre_opp` the
/// opposite), its event counter `base` and its fill ring `pre_fills`.
/// Either the quantity coalesces into the user's resting order at that
/// price, or it matches under price-time priority and the residual rests.
pub open spec fn add_rel(
    pre_same: Seq<Order>,
    pre_opp: Seq<Order>,
    base: u64,
    pre_fills: Seq<Fill>,
    post: OrderBook,
    user: u64,
    id: u64,
    timestamp: u64,
    side: Side,
    price: u64,
    qty: u64,
    cap: int,
    out: AddOutcome,
) -> bool {
    let fc = full_count(pre_opp, side, price, qty as int);
    let pt = partial_take(pre_opp, side, price, qty as int);
    let n = fc + (if pt > 0 { 1int } else { 0int });
    let consumed = qty_sum(pre_opp.take(fc)) + pt;
    let mfills = match_fills(pre_opp, fc, pt, base, post.symbol, side, user, id, n);
    let mevents = match_events(pre_opp, fc, pt, base, qty as int, side, id, n);
    let resid = Order {
        id,
        user,
        symbol: post.symbol,
        side,
        price,
        quantity: (qty - consumed) as u64,
        timestamp,
    };
    &&& ((exists|k: int| user_order_at(pre_same, user, price, k)) ==> exists|k: int|
        #![trigger user_order_at(pre_same, user, price, k)]
        {
            &&& user_order_at(pre_same, user, price, k)
            &&& out.order_id == pre_same[k].id
            &&& out.filled == 0
            &&& out.avg_price is None
            &&& flat(post.side_levels(side)) == pre_same.update(
                k,
                Order { quantity: (pre_same[k].quantity + qty) as u64, ..pre_same[k] },
            )
            &&& flat(post.side_levels(side.spec_other())) == pre_opp
            &&& post.fills@ == pre_fills
            &&& post.next_seq == base + 1
            &&& out.events@ == seq![
                OrderEvent::Coalesced {
                    seq: base,
                    id: pre_same[k].id,
                    side,
                    price,
                    added: qty,
                    new_quantity: (pre_same[k].quantity + qty) as u64,
                },
            ]
        })
    &&& ((forall|k: int| !user_order_at(pre_same, user, price, k)) ==> {
        &&& flat(post.side_levels(side.spec_other())) == matched_flat(pre_opp, fc, pt)
        &&& out.order_id == id
        &&& out.filled == consumed
        &&& out.avg_price == avg_fill_spec(mfills, side)
        &&& post.fills@ == capped(pre_fills + mfills, cap)
        &&& (qty - consumed > 0 ==> (exists|k2: int|
            inserted_at(pre_same, flat(post.side_levels(side)), side, resid, k2))
            && out.events@ == mevents.push(
            OrderEvent::Accepted { seq: (base + 2 * n) as u64, order: resid },
        ) && post.next_seq == base + 2 * n + 1)
        &&& (qty - consumed == 0 ==> flat(post.side_levels(side)) == pre_same && out.events@
            == mevents && post.next_seq == base + 2 * n)
    })
}

/// Whether resting `qty` more at `price` would push the level's aggregate
/// past the representable maximum.
pub open spec fn add_overflow(ls: Seq<PriceLevel>, price: u64, qty: u64) -> bool {
    exists|j: int|
        0 <= j < ls.len() && (#[trigger] ls[j]).price == price && ls[j].total + qty > u64::MAX
}

/// Whether a resting order passes every given list filter (an absent
/// filter is a wildcard).
pub open spec fn order_matches(o: Order, f: ListFilter) -> bool {
    &&& (f.user is Some ==> o.user == f.user->0)
    &&& (f.side is Some ==> o.side == f.side->0)
    &&& (f.symbol is Some ==> o.symbol == f.symbol->0)
}

/// The subsequence of `s` passing the list filter, in order.
pub open spec fn filter_orders(s: Seq<Order>, f: ListFilter) -> Seq<Order>
    decreases s.len(),
{
    if s.len() == 0 {
        Seq::empty()
    } else if order_matches(s[0], f) {
        seq![s[0]] + filter_orders(s.drop_first(), f)
    } else {
        filter_orders(s.drop_first(), f)
    }
}

/// Filtering distributes over concatenation.
pub proof fn lemma_filter_orders_concat(a: Seq<Order>, b: Seq<Order>, f: ListFilter)
    ensures
        filter_orders(a + b, f) == filter_orders(a, f) + filter_orders(b, f),
    decreases a.len(),
{
    if a.len() == 0 {
        assert(a + b =~= b);
        assert(filter_orders(a, f) + filter_orders(b, f) =~= filter_orders(b, f));
    } else {
        assert((a + b).drop_first() =~= a.drop_first() + b);
        lemma_filter_orders_concat(a.drop_first(), b, f);
        assert((a + b)[0] == a[0]);
        assert(filter_orders(a + b, f) =~= filter_orders(a, f) + filter_orders(b, f));
    }
}

/// Whether a fill passes every given match filter (an absent filter is a
/// wildcard; `user` matches either side of the trade).
pub open spec fn fill_matches(x: Fill, f: MatchFilter) -> bool {
    &&& (f.user is Some ==> x.buyer == f.user->0 || x.seller == f.user->0)
    &&& (f.buyer is Some ==> x.buyer == f.buyer->0)
    &&& (f.seller is Some ==> x.seller == f.seller->0)
    &&& (f.symbol is Some ==> x.symbol == f.symbol->0)
}

/// The subsequence of `s` passing the match filter, in order.
pub open spec fn filter_fills(s: Seq<Fill>, f: MatchFilter) -> Seq<Fill>
    decreases s.len(),
{
    if s.len() == 0 {
        Seq::empty()
    } else if fill_matches(s[0], f) {
        seq![s[0]] + filter_fills(s.drop_first(), f)
    } else {
        filter_fills(s.drop_first(), f)
    }
}

/// Filtering fills distributes over concatenation.
pub proof fn lemma_filter_fills_concat(a: Seq<Fill>, b: Seq<Fill>, f: MatchFilter)
    ensures
        filter_fills(a + b, f) == filter_fills(a, f) + filter_fills(b, f),
    decreases a.len(),
{
    if a.len() == 0 {
        assert(a + b =~= b);
        assert(filter_fills(a, f) + filter_fills(b, f) =~= filter_fills(b, f));
    } else {
        assert((a + b).drop_first() =~= a.drop_first() + b);
        lemma_filter_fills_concat(a.drop_first(), b, f);
        assert((a + b)[0] == a[0]);
        assert(filter_fills(a + b, f) =~= filter_fills(a, f) + filter_fills(b, f));
    }
}

/// Whether a resting order passes every given list filter.
pub fn order_passes(o: &Order, f: &ListFilter) -> (r: bool)
    ensures
        r == order_matches(*o, *f),
{
    let u_ok = match f.user {
        Some(u) => o.user == u,
        None => true,
    };
    let s_ok = match f.side {
        Some(s) => o.side == s,
        None => true,
    };
    let y_ok = match f.symbol {
        Some(y) => o.symbol == y,
        None => true,
    };
    u_ok && s_ok && y_ok
}

/// Whether a fill passes every given match filter.
pub fn fill_passes(x: &Fill, f: &MatchFilter) -> (r: bool)
    ensures
        r == fill_matches(*x, *f),
{
    let u_ok = match f.user {
        Some(u) => x.buyer == u || x.seller == u,
        None => true,
    };
    let b_ok = match f.buyer {
        Some(b) => x.buyer == b,
        None => true,
    };
    let s_ok = match f.seller {
        Some(s) => x.seller == s,
        None => true,
    };
    let y_ok = match f.symbol {
        Some(y) => x.symbol == y,
        None => true,
    };
    u_ok && b_ok && s_ok && y_ok
}

/// Appends to `out` the orders of one side passing the filter, in priority
/// order (best price first, oldest first within a price).
pub(crate) fn collect_side(levels: &Vec<PriceLevel>, f: &ListFilter, out: &mut Vec<Order>)
    ensures
        final(out)@ == old(out)@ + filter_orders(flat(levels@), *f),
{
    let ghost out0 = out@;
    proof {
        assert(levels@.take(0) =~= Seq::<PriceLevel>::empty());
        assert(flat(Seq::<PriceLevel>::empty()) =~= Seq::<Order>::empty());
        assert(filter_orders(Seq::<Order>::empty(), *f) =~= Seq::<Order>::empty());
        assert(out@ =~= out0 + filter_orders(flat(levels@.take(0)), *f));
    }
    let mut li: usize = 0;
    while li < levels.len()
        invariant
            0 <= li <= levels@.len(),
            out@ == out0 + filter_orders(flat(levels@.take(li as int)), *f),
        decreases levels@.len() - li,
    {
        proof {
            let os = levels@[li as int].orders@;
            assert(os.take(0) =~= Seq::<Order>::empty());
            assert(filter_orders(Seq::<Order>::empty(), *f) =~= Seq::<Order>::empty());
            assert(out@ =~= out0 + filter_orders(flat(levels@.take(li as int)), *f)
                + filter_orders(os.take(0), *f));
        }
        let mut oi: usize = 0;
        while oi < levels[li].orders.len()
            invariant
                0 <= li < levels@.len(),
                0 <= oi <= levels@[li as int].orders@.len(),
                out@ == out0 + filter_orders(flat(levels@.take(li as int)), *f) + filter_orders(
                    levels@[li as int].orders@.take(oi as int),
                    *f,
                ),
            decreases levels@[li as int].orders@.len() - oi,
        {
            let o = levels[li].orders[oi];
            proof {
                let os = levels@[li as int].orders@;
                assert(os.take(oi as int + 1) =~= os.take(oi as int) + seq![os[oi as int]]);
                lemma_filter_orders_concat(os.take(oi as int), seq![os[oi as int]], *f);
                assert(seq![os[oi as int]].drop_first() =~= Seq::<Order>::empty());
                assert(seq![os[oi as int]][0] == os[oi as int]);
                assert(filter_orders(Seq::<Order>::empty(), *f) =~= Seq::<Order>::empty());
                if order_matches(os[oi as int], *f) {
                    assert(filter_orders(seq![os[oi as int]], *f) == seq![os[oi as int]]
                        + filter_orders(seq![os[oi as int]].drop_first(), *f));
                    assert(filter_orders(seq![os[oi as int]], *f) =~= seq![os[oi as int]]);
                } else {
                    assert(filter_orders(seq![os[oi as int]], *f) == filter_orders(
                        seq![os[oi as int]].drop_first(),
                        *f,
                    ));
                    assert(filter_orders(seq![os[oi as int]], *f) =~= Seq::<Order>::empty());
                }
            }
            if order_passes(&o, f) {
                out.push(o);
            }
            proof {
                assert(out@ =~= out0 + filter_orders(flat(levels@.take(li as int)), *f)
                    + filter_orders(levels@[li as int].orders@.take(oi as int + 1), *f));
            }
            oi += 1;
        }
        proof {
            let os = levels@[li as int].orders@;
            assert(os.take(os.len() as int) =~= os);
            assert(levels@.take(li as int + 1) =~= levels@.take(li as int) + seq![
                levels@[li as int],
            ]);
            lemma_flat_concat(levels@.take(li as int), seq![levels@[li as int]]);
            lemma_flat_single(levels@[li as int]);
            lemma_filter_orders_concat(flat(levels@.take(li as int)), os, *f);
            assert(out@ =~= out0 + filter_orders(flat(levels@.take(li as int + 1)), *f));
        }
        li += 1;
    }
    proof {
        assert(levels@.take(levels@.len() as int) =~= levels@);
    }
}

/// Appends to `out` the retained fills passing the filter, in ring order
/// (oldest retained first).
pub(crate) fn collect_fills(fills: &Vec<Fill>, f: &MatchFilter, out: &mut Vec<Fill>)
    ensures
        final(out)@ == old(out)@ + filter_fills(fills@, *f),
{
    let ghost out0 = out@;
    proof {
        assert(fills@.take(0) =~= Seq::<Fill>::empty());
        assert(filter_fills(Seq::<Fill>::empty(), *f) =~= Seq::<Fill>::empty());
        assert(out@ =~= out0 + filter_fills(fills@.take(0), *f));
    }
    let mut i: usize = 0;
    while i < fills.len()
        invariant
            0 <= i <= fills@.len(),
            out@ == out0 + filter_fills(fills@.take(i as int), *f),
        decreases fills@.len() - i,
    {
        let x = fills[i];
        proof {
            assert(fills@.take(i as int + 1) =~= fills@.take(i as int) + seq![fills@[i as int]]);
            lemma_filter_fills_concat(fills@.take(i as int), seq![fills@[i as int]], *f);
            assert(seq![fills@[i as int]].drop_first() =~= Seq::<Fill>::empty());
            assert(seq![fills@[i as int]][0] == fills@[i as int]);
            assert(filter_fills(Seq::<Fill>::empty(), *f) =~= Seq::<Fill>::empty());
            if fill_matches(fills@[i as int], *f) {
                assert(filter_fills(seq![fills@[i as int]], *f) == seq![fills@[i as int]]
                    + filter_fills(seq![fills@[i as int]].drop_first(), *f));
                assert(filter_fills(seq![fills@[i as int]], *f) =~= seq![fills@[i as int]]);
            } else {
                assert(filter_fills(seq![fills@[i as int]], *f) == filter_fills(
                    seq![fills@[i as int]].drop_first(),
                    *f,
                ));
                assert(filter_fills(seq![fills@[i as int]], *f) =~= Seq::<Fill>::empty());
            }
        }
        if fill_passes(&x, f) {
            out.push(x);
        }
        proof {
            assert(out@ =~= out0 + filter_fills(fills@.take(i as int + 1), *f));
        }
        i += 1;
    }
    proof {
        assert(fills@.take(fills@.len() as int) =~= fills@);
    }
}

/// No persisted cross: in a well-formed book whose two sides are both
/// non-empty, the best bid price is strictly less than the best ask price.
pub proof fn lemma_no_cross(b: OrderBook)
    requires
        b.wf(),
        b.spec_best_price(Side::Buy) is Some,
        b.spec_best_price(Side::Sell) is Some,
    ensures
        b.spec_best_price(Side::Buy)->0 < b.spec_best_price(Side::Sell)->0,
{
}

/// The priority sequence of one side: all resting orders, best price first,
/// oldest first within a price.  This flattened sequence is the model that
/// the mutating operations' contracts speak of.
pub open spec fn flat(ls: Seq<PriceLevel>) -> Seq<Order>
    decreases ls.len(),
{
    if ls.len() == 0 {
        Seq::empty()
    } else {
        ls[0].orders@ + flat(ls.drop_first())
    }
}

/// `flat` distributes over concatenation of level sequences.
pub proof fn lemma_flat_concat(a: Seq<PriceLevel>, b: Seq<PriceLevel>)
    ensures
        flat(a + b) == flat(a) + flat(b),
    decreases a.len(),
{
    if a.len() == 0 {
        assert(a + b =~= b);
        assert(flat(a) + flat(b) =~= flat(b));
    } else {
        assert((a + b).drop_first() =~= a.drop_first() + b);
        lemma_flat_concat(a.drop_first(), b);
        assert(flat(a + b) =~= flat(a) + flat(b));
    }
}

/// The priority sequence of a single level is its own order queue.
pub proof fn lemma_flat_single(lv: PriceLevel)
    ensures
        flat(seq![lv]) == lv.orders@,
{
    let single = seq![lv];
    assert(single.drop_first() =~= Seq::<PriceLevel>::empty());
    assert(flat(single) == single[0].orders@ + flat(single.drop_first()));
    assert(flat(Seq::<PriceLevel>::empty()) =~= Seq::<Order>::empty());
    assert(flat(single) =~= lv.orders@);
}

/// Decomposes the priority sequence around one level: the orders of the
/// levels before it, then its own orders, then the orders of the levels
/// after it.
pub proof fn lemma_flat_split(ls: Seq<PriceLevel>, j: int)
    requires
        0 <= j < ls.len(),
    ensures
        flat(ls) == flat(ls.take(j)) + ls[j].orders@ + flat(ls.skip(j + 1)),
    decreases ls.len(),
{
    assert(ls =~= ls.take(j) + (seq![ls[j]] + ls.skip(j + 1)));
    lemma_flat_concat(ls.take(j), seq![ls[j]] + ls.skip(j + 1));
    lemma_flat_concat(seq![ls[j]], ls.skip(j + 1));
    let single = seq![ls[j]];
    assert(single.drop_first() =~= Seq::<PriceLevel>::empty());
    assert(flat(single) == single[0].orders@ + flat(single.drop_first()));
    assert(flat(Seq::<PriceLevel>::empty()) =~= Seq::<Order>::empty());
    assert(flat(single) =~= ls[j].orders@);
    assert(flat(ls) =~= flat(ls.take(j)) + ls[j].orders@ + flat(ls.skip(j + 1)));
}

/// Every order in the priority sequence of well-formed levels carries the
/// price of the level it sits in; in particular a bound that holds of every
/// level price holds of every order price.
pub proof fn lemma_flat_prices(ls: Seq<PriceLevel>, side: Side, symbol: u64)
    requires
        forall|i: int| 0 <= i < ls.len() ==> level_wf(#[trigger] ls[i], side, symbol),
    ensures
        forall|i: int|
            0 <= i < flat(ls).len() ==> exists|j: int|
                0 <= j < ls.len() && (#[trigger] flat(ls)[i]).price == ls[j].price,
        forall|i: int| 0 <= i < flat(ls).len() ==> (#[trigger] flat(ls)[i]).symbol == symbol,
        forall|i: int| 0 <= i < flat(ls).len() ==> (#[trigger] flat(ls)[i]).side == side,
        forall|i: int| 0 <= i < flat(ls).len() ==> (#[trigger] flat(ls)[i]).quantity > 0,
    decreases ls.len(),
{
    if ls.len() > 0 {
        lemma_flat_prices(ls.drop_first(), side, symbol);
        assert(level_wf(ls[0], side, symbol));
        assert forall|i: int| 0 <= i < flat(ls).len() implies exists|j: int|
            0 <= j < ls.len() && (#[trigger] flat(ls)[i]).price == ls[j].price by {
            let head = ls[0].orders@;
            if i < head.len() {
                assert(flat(ls)[i] == head[i]);
                assert(flat(ls)[i].price == ls[0].price);
            } else {
                let tail = ls.drop_first();
                assert(flat(ls)[i] == flat(tail)[i - head.len()]);
                let j0 = choose|j0: int|
                    0 <= j0 < tail.len() && flat(tail)[i - head.len()].price == tail[j0].price;
                assert(flat(ls)[i].price == ls[j0 + 1].price);
            }
        }
        assert forall|i: int| 0 <= i < flat(ls).len() implies (#[trigger] flat(ls)[i]).symbol
            == symbol && flat(ls)[i].side == side && flat(ls)[i].quantity > 0 by {
            let head = ls[0].orders@;
            if i < head.len() {
                assert(flat(ls)[i] == head[i]);
            } else {
                assert(flat(ls)[i] == flat(ls.drop_first())[i - head.len()]);
            }
        }
    }
}

/// Sum of the cached level totals of one side.
pub open spec fn totals_sum(ls: Seq<PriceLevel>) -> int
    decreases ls.len(),
{
    if ls.len() == 0 {
        0
    } else {
        ls[0].total + totals_sum(ls.drop_first())
    }
}

/// Sum of the individual resting order quantities of one side.
pub open spec fn orders_qty_sum(ls: Seq<PriceLevel>) -> int
    decreases ls.len(),
{
    if ls.len() == 0 {
        0
    } else {
        qty_sum(ls[0].orders@) + orders_qty_sum(ls.drop_first())
    }
}

/// Quantity conservation: on a well-formed side, the sum of the cached
/// per-level totals equals the sum of the individual resting order
/// quantities — no quantity is silently created or lost by the caching.
pub proof fn lemma_side_quantity_conserved(ls: Seq<PriceLevel>, side: Side, symbol: u64)
    requires
        forall|i: int| 0 <= i < ls.len() ==> level_wf(#[trigger] ls[i], side, symbol),
    ensures
        totals_sum(ls) == orders_qty_sum(ls),
    decreases ls.len(),
{
    if ls.len() > 0 {
        assert(level_wf(ls[0], side, symbol));
        lemma_side_quantity_conserved(ls.drop_first(), side, symbol);
    }
}

} // verus!

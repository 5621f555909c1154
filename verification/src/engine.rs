//! The matching engine: one book per symbol, monotone order-id assignment,
//! request validation, and the list / match-history queries.

use vstd::prelude::*;
use crate::order::{
    Side, Order, Fill, OrderEvent, ValidationError, AddOutcome, CancelOutcome, ListFilter,
    MatchFilter,
};
use crate::book::{
    OrderBook, PriceLevel, flat, level_wf, levels_sorted, add_overflow, user_order_at, full_count,
    partial_take, matched_flat, match_events, match_fills, avg_fill_spec, capped, qty_sum,
    inserted_at, stamps_below_flat, add_rel, filter_orders, filter_fills, collect_side,
    collect_fills, lemma_filter_orders_concat,
};

verus! {

/// The engine: per-symbol books sorted by symbol, a monotone counter that
/// stamps order ids and timestamps, and the per-symbol fill-ring capacity.
pub struct MatchingEngine {
    pub books: Vec<OrderBook>,
    pub next_id: u64,
    pub fill_cap: usize,
}

impl MatchingEngine {
    /// Engine invariant: each book is well formed, books are strictly
    /// sorted by symbol (so symbols are unique), and every resting order
    /// was stamped before `next_id`.
    pub open spec fn wf(self) -> bool {
        &&& forall|i: int| 0 <= i < self.books@.len() ==> (#[trigger] self.books@[i]).wf()
        &&& forall|i: int, j: int|
            0 <= i < j < self.books@.len() ==> (#[trigger] self.books@[i]).symbol < (
            #[trigger] self.books@[j]).symbol
        &&& forall|i: int|
            0 <= i < self.books@.len() ==> stamps_below_flat(
                flat((#[trigger] self.books@[i]).bids@),
                self.next_id,
            ) && stamps_below_flat(flat(self.books@[i].asks@), self.next_id)
    }

    /// Whether the engine can stamp and sequence one more add for `symbol`
    /// without exhausting a counter.
    pub open spec fn add_ready(self, symbol: u64, side: Side) -> bool {
        &&& self.next_id < u64::MAX
        &&& forall|i: int|
            0 <= i < self.books@.len() && (#[trigger] self.books@[i]).symbol == symbol
                ==> self.books@[i].next_seq + 2 * self.books@[i].side_flat(
                side.spec_other(),
            ).len() + 2 <= u64::MAX
    }

    /// Whether one more cancel for `symbol` can be sequenced.
    pub open spec fn cancel_ready(self, symbol: u64) -> bool {
        forall|i: int|
            0 <= i < self.books@.len() && (#[trigger] self.books@[i]).symbol == symbol
                ==> self.books@[i].next_seq < u64::MAX
    }

    /// A fresh engine that retains up to `fill_cap` recent fills per symbol.
    pub fn new(fill_cap: usize) -> (r: MatchingEngine)
        ensures
            r.wf(),
            r.books@.len() == 0,
            r.next_id == 1,
            r.fill_cap == fill_cap,
    {
        MatchingEngine { books: Vec::new(), next_id: 1, fill_cap }
    }

    /// The position of the book for `symbol`, if one exists.
    fn find_book(&self, symbol: u64) -> (r: Option<usize>)
        ensures
            r is Some ==> 0 <= r->0 < self.books@.len() && self.books@[r->0 as int].symbol
                == symbol,
            r is None ==> forall|i: int|
                0 <= i < self.books@.len() ==> (#[trigger] self.books@[i]).symbol != symbol,
    {
        let mut i: usize = 0;
        while i < self.books.len()
            invariant
                0 <= i <= self.books@.len(),
                forall|j: int| 0 <= j < i ==> (#[trigger] self.books@[j]).symbol != symbol,
            decreases self.books@.len() - i,
        {
            if self.books[i].symbol == symbol {
                return Some(i);
            }
            i += 1;
        }
        None
    }

    /// One add request.  Quantity and price must be positive; the order is
    /// stamped with a fresh id (also its arrival timestamp), coalesced or
    /// matched inside its symbol's book, and the outcome reported.
    #[verifier::rlimit(100)]
    pub fn add(&mut self, user: u64, side: Side, symbol: u64, price: u64, qty: u64) -> (r: Result<
        AddOutcome,
        ValidationError,
    >)
        requires
            old(self).wf(),
            old(self).add_ready(symbol, side),
        ensures
            final(self).wf(),
            final(self).fill_cap == old(self).fill_cap,
            r == Result::<AddOutcome, ValidationError>::Err(ValidationError::ZeroQuantity) <==> qty
                == 0,
            r == Result::<AddOutcome, ValidationError>::Err(ValidationError::ZeroPrice) <==> (qty
                > 0 && price == 0),
            r == Result::<AddOutcome, ValidationError>::Err(ValidationError::QuantityOverflow)
                <==> (qty > 0 && price > 0 && exists|bi: int|
                0 <= bi < old(self).books@.len() && (#[trigger] old(self).books@[bi]).symbol
                    == symbol && add_overflow(old(self).books@[bi].side_levels(side), price, qty)),
            r is Err ==> final(self).books@ == old(self).books@ && final(self).next_id == old(
                self,
            ).next_id,
            r is Ok ==> final(self).next_id == old(self).next_id + 1,
            r is Ok ==> exists|bi: int|
                0 <= bi < final(self).books@.len() && (#[trigger] final(self).books@[bi]).symbol
                    == symbol,
            (r is Ok && (exists|oi: int|
                0 <= oi < old(self).books@.len() && (#[trigger] old(self).books@[oi]).symbol
                    == symbol)) ==> exists|oi: int|
                #![trigger old(self).books@[oi]]
                {
                    &&& 0 <= oi < old(self).books@.len()
                    &&& old(self).books@[oi].symbol == symbol
                    &&& final(self).books@.len() == old(self).books@.len()
                    &&& (forall|j: int|
                        0 <= j < old(self).books@.len() && j != oi ==> final(self).books@[j]
                            == old(self).books@[j])
                    &&& add_rel(
                        old(self).books@[oi].side_flat(side),
                        old(self).books@[oi].side_flat(side.spec_other()),
                        old(self).books@[oi].next_seq,
                        old(self).books@[oi].fills@,
                        final(self).books@[oi],
                        user,
                        old(self).next_id,
                        old(self).next_id,
                        side,
                        price,
                        qty,
                        old(self).fill_cap as int,
                        r->Ok_0,
                    )
                },
            (r is Ok && (forall|oi: int|
                0 <= oi < old(self).books@.len() ==> (#[trigger] old(self).books@[oi]).symbol
                    != symbol)) ==> exists|bi: int|
                #![trigger final(self).books@[bi]]
                {
                    &&& final(self).books@.len() == old(self).books@.len() + 1
                    &&& 0 <= bi < final(self).books@.len()
                    &&& final(self).books@[bi].symbol == symbol
                    &&& (forall|j: int|
                        0 <= j < bi ==> final(self).books@[j] == old(self).books@[j])
                    &&& (forall|j: int|
                        bi < j < final(self).books@.len() ==> final(self).books@[j] == old(
                            self,
                        ).books@[j - 1])
                    &&& add_rel(
                        Seq::<Order>::empty(),
                        Seq::<Order>::empty(),
                        0,
                        Seq::<Fill>::empty(),
                        final(self).books@[bi],
                        user,
                        old(self).next_id,
                        old(self).next_id,
                        side,
                        price,
                        qty,
                        old(self).fill_cap as int,
                        r->Ok_0,
                    )
                },
    {
        if qty == 0 {
            return Err(ValidationError::ZeroQuantity);
        }
        if price == 0 {
            return Err(ValidationError::ZeroPrice);
        }
        let id = self.next_id;
        let cap = self.fill_cap;
        if let Some(bi) = self.find_book(symbol) {
            let ghost books0 = self.books@;
            let mut b = self.books.remove(bi);
            proof {
                assert(stamps_below_flat(flat(b.bids@), id) && stamps_below_flat(
                    flat(b.asks@),
                    id,
                ));
            }
            let res = b.add_order(user, id, id, side, price, qty, cap);
            let is_err = res.is_err();
            self.books.insert(bi, b);
            proof {
                assert(self.books@ =~= books0.update(bi as int, self.books@[bi as int]));
            }
            if is_err {
                proof {
                    assert(self.books@ =~= books0);
                }
                return res;
            }
            self.next_id = id + 1;
            proof {
                let post = self.books@[bi as int];
                let pre = books0[bi as int];
                lemma_stamps_widen(flat(pre.bids@), id, self.next_id);
                lemma_stamps_widen(flat(pre.asks@), id, self.next_id);
                assert(stamps_below_flat(flat(post.side_levels(Side::Buy)), self.next_id));
                assert(stamps_below_flat(flat(post.side_levels(Side::Sell)), self.next_id));
                assert(post.side_levels(Side::Buy) == post.bids@);
                assert(post.side_levels(Side::Sell) == post.asks@);
                assert forall|i: int|
                    0 <= i < self.books@.len() implies stamps_below_flat(
                    flat((#[trigger] self.books@[i]).bids@),
                    self.next_id,
                ) && stamps_below_flat(flat(self.books@[i].asks@), self.next_id) by {
                    if i != bi {
                        assert(self.books@[i] == books0[i]);
                        lemma_stamps_widen(flat(books0[i].bids@), id, self.next_id);
                        lemma_stamps_widen(flat(books0[i].asks@), id, self.next_id);
                    }
                }
                assert(exists|bj: int|
                    0 <= bj < self.books@.len() && (#[trigger] self.books@[bj]).symbol == symbol);
                let bj = choose|bj: int|
                    0 <= bj < self.books@.len() && (#[trigger] self.books@[bj]).symbol == symbol;
                assert(bj == bi) by {
                    if bj != bi {
                        assert(books0[bj].symbol == symbol);
                    }
                }
                let oj = choose|oj: int|
                    0 <= oj < books0.len() && (#[trigger] books0[oj]).symbol == symbol;
                assert(oj == bi) by {
                    if oj != bi {
                    }
                }
                assert(forall|j: int|
                    0 <= j < books0.len() && j != bi ==> self.books@[j] == books0[j]);
                assert(add_rel(
                    pre.side_flat(side),
                    pre.side_flat(side.spec_other()),
                    pre.next_seq,
                    pre.fills@,
                    post,
                    user,
                    id,
                    id,
                    side,
                    price,
                    qty,
                    cap as int,
                    res->Ok_0,
                ));
            }
            return res;
        }
        // a new symbol: register an empty book and add into it
        let mut b = OrderBook::new(symbol);
        let ghost b0 = b;
        let res = b.add_order(user, id, id, side, price, qty, cap);
        proof {
            assert(b0.side_levels(side).len() == 0) by {
                match side {
                    Side::Buy => {
                        assert(b0.side_levels(side) == b0.bids@);
                    }
                    Side::Sell => {
                        assert(b0.side_levels(side) == b0.asks@);
                    }
                }
            }
            assert(!add_overflow(b0.side_levels(side), price, qty));
            assert(res is Ok);
            assert(flat(Seq::<PriceLevel>::empty()) =~= Seq::<Order>::empty());
        }
        let ghost books0 = self.books@;
        // insert the new book at its sorted position
        let mut pos: usize = 0;
        while pos < self.books.len() && self.books[pos].symbol < symbol
            invariant
                0 <= pos <= self.books@.len(),
                self.books@ == books0,
                forall|j: int| 0 <= j < pos ==> (#[trigger] books0[j]).symbol < symbol,
            decreases self.books@.len() - pos,
        {
            pos += 1;
        }
        self.books.insert(pos, b);
        self.next_id = id + 1;
        proof {
            let m1 = self.books@;
            assert(m1[pos as int] == b);
            assert forall|i: int, j: int|
                0 <= i < j < m1.len() implies (#[trigger] m1[i]).symbol < (
                #[trigger] m1[j]).symbol by {
                if i < pos && j == pos {
                    assert(m1[i] == books0[i]);
                } else if i == pos && j > pos {
                    assert(m1[j] == books0[j - 1]);
                    assert(books0[j - 1].symbol != symbol);
                    assert(!(books0[j - 1].symbol < symbol));
                } else if i < pos && j > pos {
                    assert(m1[i] == books0[i] && m1[j] == books0[j - 1]);
                } else if j < pos {
                    assert(m1[i] == books0[i] && m1[j] == books0[j]);
                } else {
                    assert(m1[i] == books0[i - 1] && m1[j] == books0[j - 1]);
                }
            }
            assert(stamps_below_flat(flat(b.side_levels(Side::Buy)), self.next_id));
            assert(stamps_below_flat(flat(b.side_levels(Side::Sell)), self.next_id));
            assert(b.side_levels(Side::Buy) == b.bids@);
            assert(b.side_levels(Side::Sell) == b.asks@);
            assert forall|i: int|
                0 <= i < m1.len() implies stamps_below_flat(
                flat((#[trigger] m1[i]).bids@),
                self.next_id,
            ) && stamps_below_flat(flat(m1[i].asks@), self.next_id) by {
                if i < pos {
                    assert(m1[i] == books0[i]);
                    lemma_stamps_widen(flat(books0[i].bids@), id, self.next_id);
                    lemma_stamps_widen(flat(books0[i].asks@), id, self.next_id);
                } else if i > pos {
                    assert(m1[i] == books0[i - 1]);
                    lemma_stamps_widen(flat(books0[i - 1].bids@), id, self.next_id);
                    lemma_stamps_widen(flat(books0[i - 1].asks@), id, self.next_id);
                } else {
                    assert(m1[i] == b);
                }
            }
            assert forall|i: int| 0 <= i < m1.len() implies (#[trigger] m1[i]).wf() by {
                if i < pos {
                    assert(m1[i] == books0[i]);
                } else if i > pos {
                    assert(m1[i] == books0[i - 1]);
                }
            }
            let bj = choose|bj: int|
                0 <= bj < m1.len() && (#[trigger] m1[bj]).symbol == symbol;
            assert(bj == pos) by {
                if bj < pos {
                    assert(m1[bj] == books0[bj]);
                } else if bj > pos {
                    assert(m1[bj] == books0[bj - 1]);
                }
            }
            assert(forall|oi: int|
                0 <= oi < books0.len() ==> (#[trigger] books0[oi]).symbol != symbol);
            assert(b0.bids@ =~= Seq::<PriceLevel>::empty());
            assert(b0.asks@ =~= Seq::<PriceLevel>::empty());
            assert(flat(Seq::<PriceLevel>::empty()) =~= Seq::<Order>::empty());
            assert(b0.side_flat(side) =~= Seq::<Order>::empty()) by {
                match side {
                    Side::Buy => {
                        assert(b0.side_levels(side) == b0.bids@);
                    }
                    Side::Sell => {
                        assert(b0.side_levels(side) == b0.asks@);
                    }
                }
            }
            assert(b0.side_flat(side.spec_other()) =~= Seq::<Order>::empty()) by {
                match side {
                    Side::Buy => {
                        assert(b0.side_levels(side.spec_other()) == b0.asks@);
                    }
                    Side::Sell => {
                        assert(b0.side_levels(side.spec_other()) == b0.bids@);
                    }
                }
            }
            assert(b0.fills@ =~= Seq::<Fill>::empty());
            assert(forall|j: int| 0 <= j < pos ==> m1[j] == books0[j]);
            assert(forall|j: int| pos < j < m1.len() ==> m1[j] == books0[j - 1]);
            assert(add_rel(
                Seq::<Order>::empty(),
                Seq::<Order>::empty(),
                0,
                Seq::<Fill>::empty(),
                m1[pos as int],
                user,
                id,
                id,
                side,
                price,
                qty,
                cap as int,
                res->Ok_0,
            ));
        }
        res
    }

    /// A snapshot of all resting orders passing the given filters, ordered
    /// by symbol, then side (bids before asks), then price best-to-worst
    /// (descending bids, ascending asks), then time priority.
    pub fn list(&self, f: &ListFilter) -> (r: Vec<Order>)
        ensures
            r@ == list_spec(self.books@, *f),
    {
        let mut out: Vec<Order> = Vec::new();
        proof {
            assert(self.books@.take(0) =~= Seq::<OrderBook>::empty());
            assert(list_spec(Seq::<OrderBook>::empty(), *f) =~= Seq::<Order>::empty());
            assert(out@ =~= list_spec(self.books@.take(0), *f));
        }
        let mut bi: usize = 0;
        while bi < self.books.len()
            invariant
                0 <= bi <= self.books@.len(),
                out@ == list_spec(self.books@.take(bi as int), *f),
            decreases self.books@.len() - bi,
        {
            collect_side(&self.books[bi].bids, f, &mut out);
            collect_side(&self.books[bi].asks, f, &mut out);
            proof {
                let bs = self.books@;
                assert(bs.take(bi as int + 1) =~= bs.take(bi as int) + seq![bs[bi as int]]);
                lemma_list_spec_concat(bs.take(bi as int), seq![bs[bi as int]], *f);
                assert(seq![bs[bi as int]].drop_first() =~= Seq::<OrderBook>::empty());
                assert(seq![bs[bi as int]][0] == bs[bi as int]);
                assert(list_spec(Seq::<OrderBook>::empty(), *f) =~= Seq::<Order>::empty());
                assert(list_spec(seq![bs[bi as int]], *f) =~= filter_orders(
                    book_orders(bs[bi as int]),
                    *f,
                ));
                lemma_filter_orders_concat(flat(bs[bi as int].bids@), flat(bs[bi as int].asks@), *f);
                assert(out@ =~= list_spec(bs.take(bi as int + 1), *f));
            }
            bi += 1;
        }
        proof {
            assert(self.books@.take(self.books@.len() as int) =~= self.books@);
        }
        out
    }

    /// The retained fills passing the given filters, ordered by symbol,
    /// then oldest retained first.  A read over the bounded in-memory ring
    /// of recent trades, not over the live book.
    pub fn match_query(&self, f: &MatchFilter) -> (r: Vec<Fill>)
        ensures
            r@ == match_spec(self.books@, *f),
    {
        let mut out: Vec<Fill> = Vec::new();
        proof {
            assert(self.books@.take(0) =~= Seq::<OrderBook>::empty());
            assert(match_spec(Seq::<OrderBook>::empty(), *f) =~= Seq::<Fill>::empty());
            assert(out@ =~= match_spec(self.books@.take(0), *f));
        }
        let mut bi: usize = 0;
        while bi < self.books.len()
            invariant
                0 <= bi <= self.books@.len(),
                out@ == match_spec(self.books@.take(bi as int), *f),
            decreases self.books@.len() - bi,
        {
            collect_fills(&self.books[bi].fills, f, &mut out);
            proof {
                let bs = self.books@;
                assert(bs.take(bi as int + 1) =~= bs.take(bi as int) + seq![bs[bi as int]]);
                lemma_match_spec_concat(bs.take(bi as int), seq![bs[bi as int]], *f);
                assert(seq![bs[bi as int]].drop_first() =~= Seq::<OrderBook>::empty());
                assert(seq![bs[bi as int]][0] == bs[bi as int]);
                assert(match_spec(Seq::<OrderBook>::empty(), *f) =~= Seq::<Fill>::empty());
                assert(match_spec(seq![bs[bi as int]], *f) =~= filter_fills(
                    bs[bi as int].fills@,
                    *f,
                ));
                assert(out@ =~= match_spec(bs.take(bi as int + 1), *f));
            }
            bi += 1;
        }
        proof {
            assert(self.books@.take(self.books@.len() as int) =~= self.books@);
        }
        out
    }

    /// One cancel request.  Quantity must be positive; an unknown symbol
    /// cancels nothing and is not an error.
    pub fn cancel(&mut self, user: u64, side: Side, symbol: u64, price: u64, qty: u64) -> (r:
        Result<CancelOutcome, ValidationError>)
        requires
            old(self).wf(),
            old(self).cancel_ready(symbol),
        ensures
            final(self).wf(),
            final(self).next_id == old(self).next_id,
            final(self).fill_cap == old(self).fill_cap,
            r is Err <==> qty == 0,
            r is Err ==> r == Result::<CancelOutcome, ValidationError>::Err(
                ValidationError::ZeroQuantity,
            ) && final(self).books@ == old(self).books@,
            (r is Ok && (forall|bi: int|
                0 <= bi < old(self).books@.len() ==> (#[trigger] old(self).books@[bi]).symbol
                    != symbol)) ==> ({
                let out = r->Ok_0;
                out.cancelled == 0 && out.events@ == Seq::<OrderEvent>::empty()
                    && final(self).books@ == old(self).books@
            }),
            (r is Ok && (exists|bi0: int|
                0 <= bi0 < old(self).books@.len() && (#[trigger] old(self).books@[bi0]).symbol
                    == symbol)) ==> exists|bi: int|
                #![trigger old(self).books@[bi]]
                (0 <= bi < old(self).books@.len() && old(self).books@[bi].symbol == symbol && ({
                    let out = r->Ok_0;
                    let pre = old(self).books@[bi];
                    let post = final(self).books@[bi];
                    let f0 = pre.side_flat(side);
                    &&& final(self).books@.len() == old(self).books@.len()
                    &&& (forall|j: int|
                        0 <= j < old(self).books@.len() && j != bi ==> final(self).books@[j] == old(
                            self,
                        ).books@[j])
                    &&& (out.cancelled == 0 ==> post.bids@ == pre.bids@ && post.asks@ == pre.asks@
                        && post.next_seq == pre.next_seq && out.events@ == Seq::<
                        OrderEvent,
                    >::empty() && (forall|k: int| !user_order_at(f0, user, price, k)))
                    &&& (out.cancelled > 0 ==> exists|k: int|
                        #![trigger user_order_at(f0, user, price, k)]
                        {
                            &&& user_order_at(f0, user, price, k)
                            &&& out.cancelled == (if qty < f0[k].quantity {
                                qty as int
                            } else {
                                f0[k].quantity as int
                            })
                            &&& flat(post.side_levels(side)) == (if qty < f0[k].quantity {
                                f0.update(
                                    k,
                                    Order {
                                        quantity: (f0[k].quantity - qty) as u64,
                                        ..f0[k]
                                    },
                                )
                            } else {
                                f0.remove(k)
                            })
                            &&& post.side_levels(side.spec_other()) == pre.side_levels(
                                side.spec_other(),
                            )
                            &&& post.next_seq == pre.next_seq + 1
                            &&& out.events@ == seq![
                                OrderEvent::Cancelled {
                                    seq: pre.next_seq,
                                    id: f0[k].id,
                                    side,
                                    price,
                                    removed: out.cancelled as u64,
                                    remaining: (f0[k].quantity - out.cancelled) as u64,
                                },
                            ]
                        })
                })),
    {
        if qty == 0 {
            return Err(ValidationError::ZeroQuantity);
        }
        if let Some(bi) = self.find_book(symbol) {
            let ghost books0 = self.books@;
            let mut b = self.books.remove(bi);
            let out = b.cancel_order(user, side, price, qty);
            self.books.insert(bi, b);
            proof {
                assert(self.books@ =~= books0.update(bi as int, self.books@[bi as int]));
                let pre = books0[bi as int];
                let post = self.books@[bi as int];
                assert(stamps_below_flat(flat(post.side_levels(Side::Buy)), self.next_id));
                assert(stamps_below_flat(flat(post.side_levels(Side::Sell)), self.next_id));
                assert(post.side_levels(Side::Buy) == post.bids@);
                assert(post.side_levels(Side::Sell) == post.asks@);
                assert forall|i: int|
                    0 <= i < self.books@.len() implies stamps_below_flat(
                    flat((#[trigger] self.books@[i]).bids@),
                    self.next_id,
                ) && stamps_below_flat(flat(self.books@[i].asks@), self.next_id) by {
                    if i != bi {
                        assert(self.books@[i] == books0[i]);
                    }
                }
                if out.cancelled == 0 {
                    assert(self.books@ =~= books0);
                }
            }
            Ok(out)
        } else {
            Ok(CancelOutcome { cancelled: 0, events: Vec::new() })
        }
    }
}

/// All resting orders of one book, bids (best first) then asks.
pub open spec fn book_orders(b: OrderBook) -> Seq<Order> {
    flat(b.bids@) + flat(b.asks@)
}

/// What a list query returns: for each book in symbol order, its resting
/// orders passing the filter, bids before asks, in priority order.
pub open spec fn list_spec(books: Seq<OrderBook>, f: ListFilter) -> Seq<Order>
    decreases books.len(),
{
    if books.len() == 0 {
        Seq::empty()
    } else {
        filter_orders(book_orders(books[0]), f) + list_spec(books.drop_first(), f)
    }
}

/// What a match query returns: for each book in symbol order, its retained
/// fills passing the filter, oldest first.
pub open spec fn match_spec(books: Seq<OrderBook>, f: MatchFilter) -> Seq<Fill>
    decreases books.len(),
{
    if books.len() == 0 {
        Seq::empty()
    } else {
        filter_fills(books[0].fills@, f) + match_spec(books.drop_first(), f)
    }
}

/// The list query distributes over concatenation of book sequences.
pub proof fn lemma_list_spec_concat(a: Seq<OrderBook>, b: Seq<OrderBook>, f: ListFilter)
    ensures
        list_spec(a + b, f) == list_spec(a, f) + list_spec(b, f),
    decreases a.len(),
{
    if a.len() == 0 {
        assert(a + b =~= b);
        assert(list_spec(a, f) + list_spec(b, f) =~= list_spec(b, f));
    } else {
        assert((a + b).drop_first() =~= a.drop_first() + b);
        lemma_list_spec_concat(a.drop_first(), b, f);
        assert((a + b)[0] == a[0]);
        assert(list_spec(a + b, f) =~= list_spec(a, f) + list_spec(b, f));
    }
}

/// The match query distributes over concatenation of book sequences.
pub proof fn lemma_match_spec_concat(a: Seq<OrderBook>, b: Seq<OrderBook>, f: MatchFilter)
    ensures
        match_spec(a + b, f) == match_spec(a, f) + match_spec(b, f),
    decreases a.len(),
{
    if a.len() == 0 {
        assert(a + b =~= b);
        assert(match_spec(a, f) + match_spec(b, f) =~= match_spec(b, f));
    } else {
        assert((a + b).drop_first() =~= a.drop_first() + b);
        lemma_match_spec_concat(a.drop_first(), b, f);
        assert((a + b)[0] == a[0]);
        assert(match_spec(a + b, f) =~= match_spec(a, f) + match_spec(b, f));
    }
}

/// Listing is idempotent: a list query reads the book state and never
/// writes it, so identical filters against an unchanged book state yield
/// identical ordered output.
pub proof fn lemma_list_idempotent(e1: MatchingEngine, e2: MatchingEngine, f: ListFilter)
    requires
        e1.books@ == e2.books@,
    ensures
        list_spec(e1.books@, f) == list_spec(e2.books@, f),
{
}

/// A stamp bound only grows.
pub proof fn lemma_stamps_widen(f: Seq<Order>, lo: u64, hi: u64)
    requires
        stamps_below_flat(f, lo),
        lo <= hi,
    ensures
        stamps_below_flat(f, hi),
{
}

} // verus!

//! Replay semantics for the event log: how one side's flattened priority
//! sequence evolves as committed events are applied in order.  These spec
//! functions give the persistence collaborator's replay a meaning inside
//! the library, and the lemmas prove the round trip for each event kind
//! that mutates the book: an `Accepted` event re-inserts the residual at
//! its priority position, `Coalesced` and `Cancelled` events rebuild the
//! coalesce and cancel transitions exactly, and replaying the fill events
//! of a match rebuilds the matched side.  Replay composes over
//! concatenated logs (`lemma_replay_concat`), so each operation's events
//! replay in turn.

use vstd::prelude::*;
use crate::order::{Side, Order, OrderEvent, better_price};
use crate::book::{
    inserted_at, full_count, partial_take, matched_flat, match_events, maker_event_of,
    taker_event_of, qty_sum, lemma_match_bounds,
};

verus! {

/// The position of the first order with this id, or -1 if absent.
pub open spec fn find_order(f: Seq<Order>, id: u64) -> int
    decreases f.len(),
{
    if f.len() == 0 {
        -1
    } else if f[0].id == id {
        0
    } else {
        let r = find_order(f.drop_first(), id);
        if r == -1 {
            -1
        } else {
            r + 1
        }
    }
}

/// No two resting orders share an id (the engine stamps each add with a
/// fresh monotone id, so this holds of every book it builds).
pub open spec fn distinct_ids(f: Seq<Order>) -> bool {
    forall|i: int, j: int| 0 <= i < j < f.len() ==> (#[trigger] f[i]).id != (#[trigger] f[j]).id
}

/// Adds `q` to the quantity of the order with this id, if present.
pub open spec fn bump_order(f: Seq<Order>, id: u64, q: u64) -> Seq<Order> {
    let k = find_order(f, id);
    if k == -1 {
        f
    } else {
        f.update(k, Order { quantity: (f[k].quantity + q) as u64, ..f[k] })
    }
}

/// Removes `q` from the quantity of the order with this id, if present.
pub open spec fn reduce_order(f: Seq<Order>, id: u64, q: u64) -> Seq<Order> {
    let k = find_order(f, id);
    if k == -1 {
        f
    } else {
        f.update(k, Order { quantity: (f[k].quantity - q) as u64, ..f[k] })
    }
}

/// Removes the order with this id, if present.
pub open spec fn drop_order(f: Seq<Order>, id: u64) -> Seq<Order> {
    let k = find_order(f, id);
    if k == -1 {
        f
    } else {
        f.remove(k)
    }
}

/// Inserts `o` at its priority position: after every better-or-equally
/// priced order, before the first strictly worse priced one.
pub open spec fn priority_insert(f: Seq<Order>, side: Side, o: Order) -> Seq<Order>
    decreases f.len(),
{
    if f.len() == 0 {
        seq![o]
    } else if better_price(side, o.price, f[0].price) {
        seq![o] + f
    } else {
        seq![f[0]] + priority_insert(f.drop_first(), side, o)
    }
}

/// One side's flattened priority sequence after one event.  Events for the
/// other side, and fill events for the incoming (never resident) order,
/// leave it unchanged.
pub open spec fn apply_event(f: Seq<Order>, side: Side, ev: OrderEvent) -> Seq<Order> {
    match ev {
        OrderEvent::Accepted { order, .. } => if order.side == side {
            priority_insert(f, side, order)
        } else {
            f
        },
        OrderEvent::Coalesced { id, side: s, added, .. } => if s == side {
            bump_order(f, id, added)
        } else {
            f
        },
        OrderEvent::PartiallyFilled { id, side: s, filled, resting, .. } => if s == side
            && resting {
            reduce_order(f, id, filled)
        } else {
            f
        },
        OrderEvent::FullyFilled { id, side: s, resting, .. } => if s == side && resting {
            drop_order(f, id)
        } else {
            f
        },
        OrderEvent::Cancelled { id, side: s, removed, remaining, .. } => if s == side {
            if remaining == 0 {
                drop_order(f, id)
            } else {
                reduce_order(f, id, removed)
            }
        } else {
            f
        },
    }
}

/// One side's flattened priority sequence after a whole event sequence.
pub open spec fn replay_side(f: Seq<Order>, side: Side, evs: Seq<OrderEvent>) -> Seq<Order>
    decreases evs.len(),
{
    if evs.len() == 0 {
        f
    } else {
        replay_side(apply_event(f, side, evs[0]), side, evs.drop_first())
    }
}

/// Replay composes over concatenated event logs, so replaying a symbol's
/// history is replaying each operation's events in turn.
pub proof fn lemma_replay_concat(f: Seq<Order>, side: Side, a: Seq<OrderEvent>, b: Seq<OrderEvent>)
    ensures
        replay_side(f, side, a + b) == replay_side(replay_side(f, side, a), side, b),
    decreases a.len(),
{
    if a.len() == 0 {
        assert(a + b =~= b);
        assert(replay_side(f, side, a) == f);
    } else {
        assert((a + b)[0] == a[0]);
        assert((a + b).drop_first() =~= a.drop_first() + b);
        lemma_replay_concat(apply_event(f, side, a[0]), side, a.drop_first(), b);
    }
}

/// With distinct ids, the search finds exactly the order's position.
pub proof fn lemma_find_order_at(f: Seq<Order>, k: int)
    requires
        distinct_ids(f),
        0 <= k < f.len(),
    ensures
        find_order(f, f[k].id) == k,
    decreases f.len(),
{
    if k > 0 {
        assert(f[0].id != f[k].id);
        assert(distinct_ids(f.drop_first())) by {
            assert(forall|i: int, j: int|
                0 <= i < j < f.drop_first().len() ==> (#[trigger] f.drop_first()[i]).id != (
                #[trigger] f.drop_first()[j]).id);
        }
        lemma_find_order_at(f.drop_first(), k - 1);
        assert(f.drop_first()[k - 1] == f[k]);
    }
}

/// Round trip for a cancel: replaying the one `Cancelled` event the
/// operation emitted rebuilds the post-cancel side — a partial cancel
/// decrements the order, a full cancel removes it.
pub proof fn lemma_cancel_replay(f0: Seq<Order>, side: Side, k: int, want: u64, seq0: u64)
    requires
        distinct_ids(f0),
        0 <= k < f0.len(),
        want > 0,
    ensures
        ({
            let c: u64 = if want < f0[k].quantity {
                want
            } else {
                f0[k].quantity
            };
            let ev = OrderEvent::Cancelled {
                seq: seq0,
                id: f0[k].id,
                side,
                price: f0[k].price,
                removed: c,
                remaining: (f0[k].quantity - c) as u64,
            };
            replay_side(f0, side, seq![ev]) == (if want < f0[k].quantity {
                f0.update(k, Order { quantity: (f0[k].quantity - want) as u64, ..f0[k] })
            } else {
                f0.remove(k)
            })
        }),
{
    lemma_find_order_at(f0, k);
    let c: u64 = if want < f0[k].quantity {
        want
    } else {
        f0[k].quantity
    };
    let ev = OrderEvent::Cancelled {
        seq: seq0,
        id: f0[k].id,
        side,
        price: f0[k].price,
        removed: c,
        remaining: (f0[k].quantity - c) as u64,
    };
    assert(seq![ev].drop_first() =~= Seq::<OrderEvent>::empty());
    assert(seq![ev][0] == ev);
    assert(replay_side(f0, side, seq![ev]) == replay_side(
        apply_event(f0, side, ev),
        side,
        seq![ev].drop_first(),
    ));
    assert(replay_side(apply_event(f0, side, ev), side, Seq::<OrderEvent>::empty())
        == apply_event(f0, side, ev));
}

/// Round trip for a coalesce: replaying the one `Coalesced` event the
/// operation emitted rebuilds the enlarged resting order.
pub proof fn lemma_coalesce_replay(f0: Seq<Order>, side: Side, k: int, qty: u64, seq0: u64)
    requires
        distinct_ids(f0),
        0 <= k < f0.len(),
        f0[k].quantity + qty <= u64::MAX,
    ensures
        ({
            let ev = OrderEvent::Coalesced {
                seq: seq0,
                id: f0[k].id,
                side,
                price: f0[k].price,
                added: qty,
                new_quantity: (f0[k].quantity + qty) as u64,
            };
            replay_side(f0, side, seq![ev]) == f0.update(
                k,
                Order { quantity: (f0[k].quantity + qty) as u64, ..f0[k] },
            )
        }),
{
    lemma_find_order_at(f0, k);
    let ev = OrderEvent::Coalesced {
        seq: seq0,
        id: f0[k].id,
        side,
        price: f0[k].price,
        added: qty,
        new_quantity: (f0[k].quantity + qty) as u64,
    };
    assert(seq![ev].drop_first() =~= Seq::<OrderEvent>::empty());
    assert(seq![ev][0] == ev);
    assert(replay_side(f0, side, seq![ev]) == replay_side(
        apply_event(f0, side, ev),
        side,
        seq![ev].drop_first(),
    ));
    assert(replay_side(apply_event(f0, side, ev), side, Seq::<OrderEvent>::empty())
        == apply_event(f0, side, ev));
}

/// Round trip for a resting insertion: the position `inserted_at`
/// characterises (after every better-or-equal price, before every strictly
/// worse one) is exactly where `priority_insert` puts the order, so
/// replaying an `Accepted` event rebuilds the post-insert side.
pub proof fn lemma_accept_replay(f0: Seq<Order>, f1: Seq<Order>, side: Side, o: Order, k: int)
    requires
        inserted_at(f0, f1, side, o, k),
    ensures
        priority_insert(f0, side, o) == f1,
    decreases f0.len(),
{
    if k == 0 {
        if f0.len() == 0 {
            assert(f1 =~= seq![o]);
        } else {
            assert(better_price(side, o.price, f0[0].price));
            assert(f0.take(0) =~= Seq::<Order>::empty());
            assert(f0.skip(0) =~= f0);
            assert(f1 =~= seq![o] + f0);
        }
    } else {
        assert(f0.len() > 0);
        assert(!better_price(side, o.price, f0[0].price));
        let f0t = f0.drop_first();
        let f1t = f1.drop_first();
        assert(inserted_at(f0t, f1t, side, o, k - 1)) by {
            assert(f1t =~= f0t.take(k - 1) + seq![o] + f0t.skip(k - 1)) by {
                assert(f0t.take(k - 1) =~= f0.take(k).drop_first());
                assert(f0t.skip(k - 1) =~= f0.skip(k));
                assert forall|i: int| 0 <= i < f1t.len() implies f1t[i] == (f0t.take(k - 1)
                    + seq![o] + f0t.skip(k - 1))[i] by {
                    assert(f1t[i] == f1[i + 1]);
                }
            }
            assert(forall|i: int|
                0 <= i < k - 1 ==> !better_price(side, o.price, (#[trigger] f0t[i]).price));
            assert forall|i: int| k - 1 <= i < f0t.len() implies better_price(
                side,
                o.price,
                (#[trigger] f0t[i]).price,
            ) by {
                assert(f0t[i] == f0[i + 1]);
            }
        }
        lemma_accept_replay(f0t, f1t, side, o, k - 1);
        assert(f1[0] == f0[0]) by {
            assert(f1[0] == f0.take(k)[0]);
        }
        assert(f1 =~= seq![f1[0]] + f1t);
        assert(priority_insert(f0, side, o) == seq![f0[0]] + priority_insert(f0t, side, o));
        assert(priority_insert(f0, side, o) =~= f1);
    }
}

/// Round trip for the matching phase: replaying the fill events a match
/// emitted, over the resting side they consumed from, rebuilds the matched
/// side exactly — each resting-side event removes or reduces the front
/// order it was emitted for, and the incoming-side events touch nothing.
#[verifier::rlimit(100)]
#[verifier::spinoff_prover]
pub proof fn lemma_match_replay(
    f: Seq<Order>,
    resting_side: Side,
    taker_side: Side,
    limit: u64,
    budget: u64,
    base: u64,
    taker_id: u64,
)
    requires
        resting_side == taker_side.spec_other(),
        distinct_ids(f),
        forall|i: int|
            0 <= i < f.len() ==> (#[trigger] f[i]).side == resting_side && f[i].quantity > 0,
        base + 2 * f.len() <= u64::MAX,
    ensures
        ({
            let fc = full_count(f, taker_side, limit, budget as int);
            let pt = partial_take(f, taker_side, limit, budget as int);
            let n = fc + (if pt > 0 { 1int } else { 0int });
            replay_side(
                f,
                resting_side,
                match_events(f, fc, pt, base, budget as int, taker_side, taker_id, n),
            ) == matched_flat(f, fc, pt)
        }),
    decreases f.len(),
{
    let fc = full_count(f, taker_side, limit, budget as int);
    let pt = partial_take(f, taker_side, limit, budget as int);
    let n = fc + (if pt > 0 { 1int } else { 0int });
    let evs = match_events(f, fc, pt, base, budget as int, taker_side, taker_id, n);
    lemma_match_bounds(f, taker_side, limit, budget as int);
    if fc == 0 && pt == 0 {
        assert(evs =~= Seq::<OrderEvent>::empty());
        assert(f.skip(0) =~= f);
        assert(matched_flat(f, 0, 0) == f);
    } else if fc == 0 {
        // one partial fill of the front order, then the loop stopped
        assert(f.len() > 0);
        let mev = maker_event_of(f, 0, 0, pt, base);
        let tev = taker_event_of(f, 0, 0, pt, base, budget as int, taker_side, taker_id);
        assert(evs.len() == 2);
        assert(evs[0] == mev);
        assert(evs[1] == tev);
        lemma_find_order_at(f, 0);
        let f1 = apply_event(f, resting_side, mev);
        assert(f1 == f.update(0, Order { quantity: (f[0].quantity - pt) as u64, ..f[0] }));
        let f2 = apply_event(f1, resting_side, tev);
        assert(f2 == f1);
        assert(evs.drop_first() =~= seq![tev]);
        assert(seq![tev].drop_first() =~= Seq::<OrderEvent>::empty());
        assert(replay_side(f, resting_side, evs) == replay_side(
            f1,
            resting_side,
            evs.drop_first(),
        ));
        assert(replay_side(f1, resting_side, seq![tev]) == replay_side(
            f2,
            resting_side,
            seq![tev].drop_first(),
        ));
        assert(replay_side(f2, resting_side, Seq::<OrderEvent>::empty()) == f2);
        assert(replay_side(f, resting_side, evs) == f2);
        assert(f.skip(0) =~= f);
        assert(matched_flat(f, 0, pt) == f.update(
            0,
            Order { quantity: (f[0].quantity - pt) as u64, ..f[0] },
        ));
    } else {
        // the front order fills fully; recurse on the remainder
        assert(f.len() > 0);
        assert(f[0].quantity <= budget);
        let mev = maker_event_of(f, 0, fc, pt, base);
        let tev = taker_event_of(f, 0, fc, pt, base, budget as int, taker_side, taker_id);
        lemma_find_order_at(f, 0);
        let f1 = apply_event(f, resting_side, mev);
        assert(f.remove(0) =~= f.drop_first());
        assert(f1 == f.drop_first());
        let f2 = apply_event(f1, resting_side, tev);
        assert(f2 == f1);
        let fd = f.drop_first();
        let b2: u64 = (budget - f[0].quantity) as u64;
        assert(full_count(fd, taker_side, limit, b2 as int) == fc - 1);
        assert(partial_take(fd, taker_side, limit, b2 as int) == pt);
        assert(distinct_ids(fd)) by {
            assert(forall|i: int, j: int|
                0 <= i < j < fd.len() ==> (#[trigger] fd[i]).id != (#[trigger] fd[j]).id);
        }
        assert(forall|i: int|
            0 <= i < fd.len() ==> (#[trigger] fd[i]).side == resting_side && fd[i].quantity > 0);
        lemma_match_replay(fd, resting_side, taker_side, limit, b2, (base + 2) as u64, taker_id);
        let evs_tail = match_events(
            fd,
            fc - 1,
            pt,
            (base + 2) as u64,
            b2 as int,
            taker_side,
            taker_id,
            n - 1,
        );
        assert(evs.skip(2) =~= evs_tail) by {
            assert forall|i: int| 0 <= i < evs_tail.len() implies evs.skip(2)[i] == evs_tail[i] by {
                let m = i / 2;
                assert(evs.skip(2)[i] == evs[i + 2]);
                assert(f[m + 1] == fd[m]);
                if i % 2 == 0 {
                    assert((i + 2) / 2 == m + 1);
                    assert(evs[i + 2] == maker_event_of(f, m + 1, fc, pt, base));
                    assert(evs_tail[i] == maker_event_of(fd, m, fc - 1, pt, (base + 2) as u64));
                    if fc <= m + 1 {
                        assert(f[fc] == fd[fc - 1]);
                    }
                } else {
                    assert((i + 2) / 2 == m + 1);
                    assert(evs[i + 2] == taker_event_of(
                        f,
                        m + 1,
                        fc,
                        pt,
                        base,
                        budget as int,
                        taker_side,
                        taker_id,
                    ));
                    assert(evs_tail[i] == taker_event_of(
                        fd,
                        m,
                        fc - 1,
                        pt,
                        (base + 2) as u64,
                        b2 as int,
                        taker_side,
                        taker_id,
                    ));
                    // cumulative fill quantities shift by the front order
                    assert forall|t: int| 1 <= t <= f.len() implies qty_sum(f.take(t))
                        == f[0].quantity + qty_sum(fd.take(t - 1)) by {
                        assert(f.take(t)[0] == f[0]);
                        assert(f.take(t).drop_first() =~= fd.take(t - 1));
                        assert(qty_sum(f.take(t)) == f.take(t)[0].quantity + qty_sum(
                            f.take(t).drop_first(),
                        ));
                    }
                    if m + 1 < fc {
                        assert(qty_sum(f.take(m + 2)) == f[0].quantity + qty_sum(fd.take(m + 1)));
                    } else {
                        assert(qty_sum(f.take(fc)) == f[0].quantity + qty_sum(fd.take(fc - 1)));
                        assert(f[fc] == fd[fc - 1]);
                    }
                }
            }
        }
        assert(evs =~= evs.take(2) + evs.skip(2));
        lemma_replay_concat(f, resting_side, evs.take(2), evs.skip(2));
        assert(replay_side(f, resting_side, evs.take(2)) == f2) by {
            assert(evs.take(2).len() == 2);
            assert(evs.take(2)[0] == mev);
            assert(evs.take(2).drop_first() =~= seq![tev]);
            assert(seq![tev][0] == tev);
            assert(seq![tev].drop_first() =~= Seq::<OrderEvent>::empty());
            assert(replay_side(f, resting_side, evs.take(2)) == replay_side(
                f1,
                resting_side,
                evs.take(2).drop_first(),
            ));
            assert(replay_side(f1, resting_side, seq![tev]) == replay_side(
                f2,
                resting_side,
                seq![tev].drop_first(),
            ));
            assert(replay_side(f2, resting_side, Seq::<OrderEvent>::empty()) == f2);
        }
        assert(matched_flat(f, fc, pt) == matched_flat(fd, fc - 1, pt)) by {
            assert(f.skip(fc) =~= fd.skip(fc - 1));
            if pt > 0 {
                assert(f[fc] == fd[fc - 1]);
            }
        }
    }
}

/// Whether an event cannot touch one side's resting orders: it belongs to
/// the other side, or it is the incoming (never resident) half of a fill.
pub open spec fn inert_for(ev: OrderEvent, side: Side) -> bool {
    match ev {
        OrderEvent::Accepted { order, .. } => order.side != side,
        OrderEvent::Coalesced { side: s, .. } => s != side,
        OrderEvent::PartiallyFilled { side: s, resting, .. } => s != side || !resting,
        OrderEvent::FullyFilled { side: s, resting, .. } => s != side || !resting,
        OrderEvent::Cancelled { side: s, .. } => s != side,
    }
}

/// Events that cannot touch a side leave it unchanged under replay.
pub proof fn lemma_inert_replay(f: Seq<Order>, side: Side, evs: Seq<OrderEvent>)
    requires
        forall|i: int| 0 <= i < evs.len() ==> inert_for(#[trigger] evs[i], side),
    ensures
        replay_side(f, side, evs) == f,
    decreases evs.len(),
{
    if evs.len() > 0 {
        assert(inert_for(evs[0], side));
        assert(apply_event(f, side, evs[0]) == f);
        assert(forall|i: int|
            0 <= i < evs.drop_first().len() ==> inert_for(#[trigger] evs.drop_first()[i], side));
        lemma_inert_replay(f, side, evs.drop_first());
    }
}

/// Round trip for one whole add that coalesced nothing: replaying the
/// operation's events over the opposite side rebuilds the matched side,
/// and over the incoming order's side leaves it unchanged or, when a
/// residual rested, inserts it at its priority position.
#[verifier::rlimit(100)]
#[verifier::spinoff_prover]
pub proof fn lemma_add_replay(
    pre_same: Seq<Order>,
    post_same: Seq<Order>,
    pre_opp: Seq<Order>,
    side: Side,
    user: u64,
    id: u64,
    price: u64,
    qty: u64,
    base: u64,
    symbol: u64,
)
    requires
        qty > 0,
        distinct_ids(pre_opp),
        forall|i: int|
            0 <= i < pre_opp.len() ==> (#[trigger] pre_opp[i]).side == side.spec_other()
                && pre_opp[i].quantity > 0,
        base + 2 * pre_opp.len() <= u64::MAX,
        ({
            let fc = full_count(pre_opp, side, price, qty as int);
            let pt = partial_take(pre_opp, side, price, qty as int);
            let consumed = qty_sum(pre_opp.take(fc)) + pt;
            let resid = Order {
                id,
                user,
                symbol,
                side,
                price,
                quantity: (qty - consumed) as u64,
                timestamp: id,
            };
            &&& 0 <= consumed <= qty
            &&& (qty - consumed > 0 ==> exists|k: int|
                inserted_at(pre_same, post_same, side, resid, k))
            &&& (qty - consumed == 0 ==> post_same == pre_same)
        }),
    ensures
        ({
            let fc = full_count(pre_opp, side, price, qty as int);
            let pt = partial_take(pre_opp, side, price, qty as int);
            let n = fc + (if pt > 0 { 1int } else { 0int });
            let consumed = qty_sum(pre_opp.take(fc)) + pt;
            let resid = Order {
                id,
                user,
                symbol,
                side,
                price,
                quantity: (qty - consumed) as u64,
                timestamp: id,
            };
            let mevents = match_events(pre_opp, fc, pt, base, qty as int, side, id, n);
            let evs = if qty - consumed > 0 {
                mevents.push(OrderEvent::Accepted { seq: (base + 2 * n) as u64, order: resid })
            } else {
                mevents
            };
            &&& replay_side(pre_opp, side.spec_other(), evs) == matched_flat(pre_opp, fc, pt)
            &&& replay_side(pre_same, side, evs) == post_same
        }),
{
    let resting_side = side.spec_other();
    let fc = full_count(pre_opp, side, price, qty as int);
    let pt = partial_take(pre_opp, side, price, qty as int);
    let n = fc + (if pt > 0 { 1int } else { 0int });
    let consumed = qty_sum(pre_opp.take(fc)) + pt;
    let resid = Order {
        id,
        user,
        symbol,
        side,
        price,
        quantity: (qty - consumed) as u64,
        timestamp: id,
    };
    let mevents = match_events(pre_opp, fc, pt, base, qty as int, side, id, n);
    let acc = OrderEvent::Accepted { seq: (base + 2 * n) as u64, order: resid };
    let evs = if qty - consumed > 0 {
        mevents.push(acc)
    } else {
        mevents
    };
    lemma_match_bounds(pre_opp, side, price, qty as int);
    // the fill events rebuild the matched opposite side, and the Accepted
    // event (an order of the other side) cannot touch it
    lemma_match_replay(pre_opp, resting_side, side, price, qty, base, id);
    if qty - consumed > 0 {
        assert(evs =~= mevents + seq![acc]);
        lemma_replay_concat(pre_opp, resting_side, mevents, seq![acc]);
        assert(resid.side != resting_side);
        assert(inert_for(acc, resting_side));
        assert(forall|i: int|
            0 <= i < seq![acc].len() ==> inert_for(#[trigger] seq![acc][i], side.spec_other()));
        lemma_inert_replay(matched_flat(pre_opp, fc, pt), resting_side, seq![acc]);
    }
    // no fill event can touch the incoming order's own side
    assert(forall|i: int| 0 <= i < n ==> (#[trigger] pre_opp[i]).side == resting_side);
    assert forall|i: int| 0 <= i < mevents.len() implies inert_for(
        #[trigger] mevents[i],
        side,
    ) by {
        let j = i / 2;
        assert(0 <= j < n);
        if i % 2 == 0 {
            assert(mevents[i] == maker_event_of(pre_opp, j, fc, pt, base));
            assert(pre_opp[j].side == resting_side);
        } else {
            assert(mevents[i] == taker_event_of(
                pre_opp,
                j,
                fc,
                pt,
                base,
                qty as int,
                side,
                id,
            ));
        }
    }
    lemma_inert_replay(pre_same, side, mevents);
    if qty - consumed > 0 {
        assert(evs =~= mevents + seq![acc]);
        lemma_replay_concat(pre_same, side, mevents, seq![acc]);
        let k = choose|k: int| inserted_at(pre_same, post_same, side, resid, k);
        lemma_accept_replay(pre_same, post_same, side, resid, k);
        assert(seq![acc].drop_first() =~= Seq::<OrderEvent>::empty());
        assert(seq![acc][0] == acc);
        assert(apply_event(pre_same, side, acc) == priority_insert(pre_same, side, resid));
        assert(replay_side(pre_same, side, seq![acc]) == replay_side(
            post_same,
            side,
            seq![acc].drop_first(),
        ));
    }
}

} // verus!

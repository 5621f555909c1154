use orderbook::order::{Side, OrderEvent, ValidationError};
use orderbook::engine::MatchingEngine;

#[test]
fn side_tags() {
    assert_eq!(Side::Buy.to_i16(), 0);
    assert_eq!(Side::Sell.to_i16(), 1);
    assert_eq!(Side::Buy.other(), Side::Sell);
    assert_eq!(Side::Sell.other(), Side::Buy);
}

#[test]
fn coalesce_same_user_same_price() {
    let mut e = MatchingEngine::new(16);
    let a = e.add(1, Side::Buy, 7, 10, 5).unwrap();
    let b = e.add(1, Side::Buy, 7, 10, 5).unwrap();
    // one resting order at price 10 with quantity 10, not two orders
    assert_eq!(e.books.len(), 1);
    assert_eq!(e.books[0].bids.len(), 1);
    assert_eq!(e.books[0].bids[0].orders.len(), 1);
    assert_eq!(e.books[0].bids[0].orders[0].quantity, 10);
    assert_eq!(e.books[0].bids[0].total, 10);
    assert_eq!(b.order_id, a.order_id);
    assert_eq!(b.filled, 0);
    assert!(matches!(b.events[0], OrderEvent::Coalesced { added: 5, new_quantity: 10, .. }));
}

#[test]
fn match_time_priority_partial() {
    let mut e = MatchingEngine::new(16);
    let s1 = e.add(2, Side::Sell, 7, 100, 10).unwrap();
    let s2 = e.add(3, Side::Sell, 7, 100, 5).unwrap();
    let b = e.add(1, Side::Buy, 7, 100, 12).unwrap();
    // 10 fill the oldest sell fully, 2 fill the newer one, 3 remain resting
    assert_eq!(b.filled, 12);
    assert_eq!(b.avg_price, Some(100));
    assert_eq!(e.books[0].bids.len(), 0);
    assert_eq!(e.books[0].asks.len(), 1);
    assert_eq!(e.books[0].asks[0].orders.len(), 1);
    assert_eq!(e.books[0].asks[0].orders[0].id, s2.order_id);
    assert_eq!(e.books[0].asks[0].orders[0].quantity, 3);
    assert_eq!(e.books[0].asks[0].total, 3);
    let _ = s1;
    // two fills in the ring, oldest maker first
    assert_eq!(e.books[0].fills.len(), 2);
    assert_eq!(e.books[0].fills[0].quantity, 10);
    assert_eq!(e.books[0].fills[0].seller, 2);
    assert_eq!(e.books[0].fills[1].quantity, 2);
    assert_eq!(e.books[0].fills[1].seller, 3);
}

#[test]
fn partial_cancel_keeps_order_id() {
    let mut e = MatchingEngine::new(16);
    let a = e.add(1, Side::Buy, 9, 50, 20).unwrap();
    let c = e.cancel(1, Side::Buy, 9, 50, 8).unwrap();
    assert_eq!(c.cancelled, 8);
    assert_eq!(e.books[0].bids[0].orders[0].quantity, 12);
    assert_eq!(e.books[0].bids[0].orders[0].id, a.order_id);
    assert!(matches!(c.events[0], OrderEvent::Cancelled { removed: 8, remaining: 12, .. }));
}

#[test]
fn over_cancel_cancels_what_exists() {
    let mut e = MatchingEngine::new(16);
    e.add(1, Side::Sell, 9, 50, 6).unwrap();
    let c = e.cancel(1, Side::Sell, 9, 50, 100).unwrap();
    assert_eq!(c.cancelled, 6);
    assert_eq!(e.books[0].asks.len(), 0);
    let c2 = e.cancel(1, Side::Sell, 9, 50, 3).unwrap();
    assert_eq!(c2.cancelled, 0);
    assert!(c2.events.is_empty());
}

#[test]
fn cancel_unknown_symbol_is_empty_not_error() {
    let mut e = MatchingEngine::new(16);
    let c = e.cancel(1, Side::Buy, 42, 5, 5).unwrap();
    assert_eq!(c.cancelled, 0);
    assert!(c.events.is_empty());
}

#[test]
fn validation_errors() {
    let mut e = MatchingEngine::new(16);
    assert_eq!(e.add(1, Side::Buy, 7, 10, 0).unwrap_err(), ValidationError::ZeroQuantity);
    assert_eq!(e.add(1, Side::Buy, 7, 0, 5).unwrap_err(), ValidationError::ZeroPrice);
    assert_eq!(e.cancel(1, Side::Buy, 7, 10, 0).unwrap_err(), ValidationError::ZeroQuantity);
    e.add(1, Side::Buy, 7, 10, u64::MAX).unwrap();
    assert_eq!(e.add(1, Side::Buy, 7, 10, 1).unwrap_err(), ValidationError::QuantityOverflow);
}

#[test]
fn no_cross_after_adds() {
    let mut e = MatchingEngine::new(16);
    e.add(1, Side::Buy, 7, 95, 10).unwrap();
    e.add(2, Side::Sell, 7, 105, 10).unwrap();
    e.add(3, Side::Buy, 7, 100, 4).unwrap();
    let b = &e.books[0];
    let best_bid = b.best_price(Side::Buy).unwrap();
    let best_ask = b.best_price(Side::Sell).unwrap();
    assert!(best_bid < best_ask);
    assert_eq!(best_bid, 100);
    assert_eq!(best_ask, 105);
}

#[test]
fn avg_price_tie_rounds_toward_resting_side() {
    let mut e = MatchingEngine::new(16);
    e.add(2, Side::Sell, 7, 100, 1).unwrap();
    e.add(3, Side::Sell, 7, 101, 1).unwrap();
    // notional 201 over quantity 2: the tie rounds up for an incoming buy
    let b = e.add(1, Side::Buy, 7, 101, 2).unwrap();
    assert_eq!(b.filled, 2);
    assert_eq!(b.avg_price, Some(101));
}

#[test]
fn fill_ring_is_bounded() {
    let mut e = MatchingEngine::new(1);
    e.add(2, Side::Sell, 7, 100, 1).unwrap();
    e.add(3, Side::Sell, 7, 100, 1).unwrap();
    e.add(1, Side::Buy, 7, 100, 2).unwrap();
    assert_eq!(e.books[0].fills.len(), 1);
    assert_eq!(e.books[0].fills[0].seller, 3);
}

#[test]
fn sequence_numbers_strictly_increase_per_symbol() {
    let mut e = MatchingEngine::new(16);
    let mut seqs: Vec<u64> = Vec::new();
    for out in [
        e.add(2, Side::Sell, 7, 100, 10).unwrap(),
        e.add(1, Side::Buy, 7, 100, 4).unwrap(),
    ] {
        for ev in &out.events {
            let s = match *ev {
                OrderEvent::Accepted { seq, .. } => seq,
                OrderEvent::Coalesced { seq, .. } => seq,
                OrderEvent::PartiallyFilled { seq, .. } => seq,
                OrderEvent::FullyFilled { seq, .. } => seq,
                OrderEvent::Cancelled { seq, .. } => seq,
            };
            seqs.push(s);
        }
    }
    for w in seqs.windows(2) {
        assert!(w[0] < w[1]);
    }
}

#[test]
fn replaying_events_rebuilds_the_book() {
    let mut e = MatchingEngine::new(16);
    let mut log: Vec<OrderEvent> = Vec::new();
    log.extend(e.add(1, Side::Buy, 7, 95, 10).unwrap().events);
    log.extend(e.add(2, Side::Sell, 7, 105, 8).unwrap().events);
    log.extend(e.add(3, Side::Buy, 7, 105, 5).unwrap().events);
    log.extend(e.add(1, Side::Buy, 7, 95, 7).unwrap().events);
    log.extend(e.cancel(1, Side::Buy, 7, 95, 4).unwrap().events);

    // replay: a map from order id to the resting order state
    let mut replayed: Vec<orderbook::order::Order> = Vec::new();
    for ev in &log {
        match *ev {
            OrderEvent::Accepted { order, .. } => replayed.push(order),
            OrderEvent::Coalesced { id, added, .. } => {
                let o = replayed.iter_mut().find(|o| o.id == id).unwrap();
                o.quantity += added;
            }
            OrderEvent::PartiallyFilled { id, filled, resting, .. } => {
                if resting {
                    let o = replayed.iter_mut().find(|o| o.id == id).unwrap();
                    o.quantity -= filled;
                }
            }
            OrderEvent::FullyFilled { id, resting, .. } => {
                if resting {
                    replayed.retain(|o| o.id != id);
                }
            }
            OrderEvent::Cancelled { id, remaining, .. } => {
                if remaining == 0 {
                    replayed.retain(|o| o.id != id);
                } else {
                    let o = replayed.iter_mut().find(|o| o.id == id).unwrap();
                    o.quantity = remaining;
                }
            }
        }
    }

    let mut live: Vec<orderbook::order::Order> = Vec::new();
    for lvl in e.books[0].bids.iter().chain(e.books[0].asks.iter()) {
        for o in &lvl.orders {
            live.push(*o);
        }
    }
    replayed.sort_by_key(|o| o.id);
    live.sort_by_key(|o| o.id);
    assert_eq!(replayed, live);
}

use orderbook::order::{Side, ListFilter, MatchFilter};
use orderbook::engine::MatchingEngine;

fn wide_open() -> ListFilter {
    ListFilter { user: None, side: None, symbol: None }
}

fn all_fills() -> MatchFilter {
    MatchFilter { user: None, buyer: None, seller: None, symbol: None }
}

#[test]
fn list_orders_by_symbol_side_price_time() {
    let mut e = MatchingEngine::new(16);
    e.add(1, Side::Buy, 5, 10, 10).unwrap();
    e.add(2, Side::Buy, 5, 12, 5).unwrap();
    e.add(3, Side::Sell, 5, 20, 4).unwrap();
    e.add(1, Side::Sell, 3, 8, 7).unwrap();
    let r = e.list(&wide_open());
    // symbol 3 first, then symbol 5: bids best-to-worst, then asks
    let shape: Vec<(u64, Side, u64, u64)> =
        r.iter().map(|o| (o.symbol, o.side, o.price, o.quantity)).collect();
    assert_eq!(
        shape,
        vec![
            (3, Side::Sell, 8, 7),
            (5, Side::Buy, 12, 5),
            (5, Side::Buy, 10, 10),
            (5, Side::Sell, 20, 4),
        ]
    );
}

#[test]
fn list_filters_are_conjunctive() {
    let mut e = MatchingEngine::new(16);
    e.add(1, Side::Buy, 5, 10, 10).unwrap();
    e.add(2, Side::Buy, 5, 12, 5).unwrap();
    e.add(1, Side::Sell, 3, 8, 7).unwrap();

    let by_user = e.list(&ListFilter { user: Some(1), side: None, symbol: None });
    assert_eq!(by_user.len(), 2);
    assert!(by_user.iter().all(|o| o.user == 1));
    assert_eq!(by_user[0].symbol, 3);
    assert_eq!(by_user[1].symbol, 5);

    let bids_of_5 = e.list(&ListFilter { user: None, side: Some(Side::Buy), symbol: Some(5) });
    assert_eq!(bids_of_5.len(), 2);
    assert_eq!(bids_of_5[0].price, 12);
    assert_eq!(bids_of_5[1].price, 10);

    let nobody = e.list(&ListFilter { user: Some(9), side: Some(Side::Sell), symbol: Some(5) });
    assert!(nobody.is_empty());
}

#[test]
fn list_is_idempotent_on_unchanged_book() {
    let mut e = MatchingEngine::new(16);
    e.add(1, Side::Buy, 5, 10, 10).unwrap();
    e.add(2, Side::Sell, 5, 20, 6).unwrap();
    e.add(2, Side::Buy, 7, 3, 1).unwrap();
    let f = ListFilter { user: None, side: None, symbol: Some(5) };
    let first = e.list(&f);
    let second = e.list(&f);
    assert_eq!(first, second);
    let third = e.list(&wide_open());
    let fourth = e.list(&wide_open());
    assert_eq!(third, fourth);
}

#[test]
fn match_query_filters_fill_history() {
    let mut e = MatchingEngine::new(16);
    e.add(2, Side::Sell, 5, 100, 10).unwrap();
    e.add(1, Side::Buy, 5, 100, 4).unwrap();
    e.add(3, Side::Buy, 5, 100, 2).unwrap();
    e.add(4, Side::Sell, 9, 50, 1).unwrap();
    e.add(1, Side::Buy, 9, 50, 1).unwrap();

    let all = e.match_query(&all_fills());
    assert_eq!(all.len(), 3);
    // symbol order, then oldest first within a symbol
    assert_eq!((all[0].symbol, all[0].buyer, all[0].quantity), (5, 1, 4));
    assert_eq!((all[1].symbol, all[1].buyer, all[1].quantity), (5, 3, 2));
    assert_eq!((all[2].symbol, all[2].buyer, all[2].quantity), (9, 1, 1));

    let seller2 = e.match_query(&MatchFilter {
        user: None,
        buyer: None,
        seller: Some(2),
        symbol: None,
    });
    assert_eq!(seller2.len(), 2);
    assert!(seller2.iter().all(|x| x.seller == 2));

    // `user` matches either side of the trade
    let user1 = e.match_query(&MatchFilter {
        user: Some(1),
        buyer: None,
        seller: None,
        symbol: None,
    });
    assert_eq!(user1.len(), 2);

    let sym9 = e.match_query(&MatchFilter {
        user: None,
        buyer: None,
        seller: None,
        symbol: Some(9),
    });
    assert_eq!(sym9.len(), 1);
    assert_eq!(sym9[0].seller, 4);
}

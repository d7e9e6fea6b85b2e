use orderbook::order::{Order, Trade};
use orderbook::parse::{cancel_from_groups, new_order_from_groups, parse_decimal};
use orderbook::{parse_line, OrderBook, Response, Responses, Side, UserAction};

fn buy(ob: &mut OrderBook, user_id: u32, price: u32, qty: u32, order_id: u32) -> Responses {
    place(ob, user_id, price, qty, "B", order_id)
}

fn sell(ob: &mut OrderBook, user_id: u32, price: u32, qty: u32, order_id: u32) -> Responses {
    place(ob, user_id, price, qty, "S", order_id)
}

fn place(ob: &mut OrderBook, user_id: u32, price: u32, qty: u32, side: &str, order_id: u32) -> Responses {
    let action = UserAction::NewOrder {
        user_id,
        symbol: String::from("IBM"),
        price,
        qty,
        side: String::from(side),
        order_id,
    };
    assert!(ob.admits(&action));
    ob.new_user_action(action)
}

fn cancel(ob: &mut OrderBook, user_id: u32, order_id: u32) -> Responses {
    ob.new_user_action(UserAction::CancelOrder { user_id, order_id })
}

fn ack(user_id: u32, order_id: u32) -> Option<Response> {
    Some(Response::Acknowledge { user_id, order_id })
}

fn reject(user_id: u32, order_id: u32) -> Option<Response> {
    Some(Response::Reject { user_id, order_id })
}

fn best(side: &str, price: u32, qty: u32) -> Option<Response> {
    Some(Response::Best { side: String::from(side), price, qty })
}

/// Bids 10 and 9, asks 11 and 12, 100 each.
fn four_orders(trade_active: bool) -> OrderBook {
    let mut ob = OrderBook::new("IBM", trade_active);
    buy(&mut ob, 1, 10, 100, 1);
    sell(&mut ob, 1, 12, 100, 2);
    buy(&mut ob, 2, 9, 100, 101);
    sell(&mut ob, 2, 11, 100, 102);
    ob
}

#[test]
fn empty_book_keeps_ticker() {
    let ob = OrderBook::new("TSLA", false);
    assert_eq!("TSLA", ob.ticker());
    assert_eq!(0, ob.bids());
    assert_eq!(0, ob.asks());
}

#[test]
fn emptied_levels_are_dropped() {
    let mut ob = four_orders(false);
    assert_eq!(2, ob.bids());
    assert_eq!(2, ob.asks());
    buy(&mut ob, 3, 9, 50, 7);
    assert_eq!(2, ob.bids());
    cancel(&mut ob, 2, 101);
    assert_eq!(2, ob.bids());
    cancel(&mut ob, 3, 7);
    assert_eq!(1, ob.bids());
    cancel(&mut ob, 1, 2);
    assert_eq!(1, ob.asks());
}

#[test]
fn best_bid_falls_to_next_level_on_cancel() {
    let mut ob = four_orders(false);
    buy(&mut ob, 3, 5, 40, 8);
    assert_eq!(cancel(&mut ob, 1, 1), (ack(1, 1), best("B", 9, 100)));
    assert_eq!(cancel(&mut ob, 2, 101), (ack(2, 101), best("B", 5, 40)));
    assert_eq!(cancel(&mut ob, 3, 8), (ack(3, 8), best("B", 0, 0)));
    assert_eq!(buy(&mut ob, 4, 3, 10, 9), (ack(4, 9), best("B", 3, 10)));
}

#[test]
fn crossing_orders_never_rest() {
    let mut ob = four_orders(false);
    assert_eq!(buy(&mut ob, 5, 20, 100, 1), (reject(5, 1), None));
    assert_eq!(sell(&mut ob, 5, 1, 100, 2), (reject(5, 2), None));
    assert_eq!(2, ob.bids());
    assert_eq!(2, ob.asks());
    // the best bid is still 10, so another bid there deepens the top
    assert_eq!(buy(&mut ob, 5, 10, 1, 3), (ack(5, 3), best("B", 10, 101)));
}

#[test]
fn one_primary_per_non_flush_action() {
    let mut ob = four_orders(true);
    let actions = vec![
        UserAction::NewOrder {
            user_id: 1,
            symbol: String::from("IBM"),
            price: 12,
            qty: 100,
            side: String::from("B"),
            order_id: 3,
        },
        UserAction::CancelOrder { user_id: 9, order_id: 9 },
        UserAction::Flush,
        UserAction::CancelOrder { user_id: 2, order_id: 101 },
        UserAction::Flush,
        UserAction::NewOrder {
            user_id: 1,
            symbol: String::from("IBM"),
            price: 7,
            qty: 5,
            side: String::from("S"),
            order_id: 4,
        },
    ];
    let mut primaries = 0;
    let mut non_flush = 0;
    for action in actions {
        if !matches!(action, UserAction::Flush) {
            non_flush += 1;
        }
        let (primary, _) = ob.new_user_action(action);
        if primary.is_some() {
            primaries += 1;
        }
    }
    assert_eq!(4, non_flush);
    assert_eq!(non_flush, primaries);
}

#[test]
fn flush_resets_everything() {
    let mut ob = four_orders(false);
    assert_eq!(ob.new_user_action(UserAction::Flush), (None, None));
    assert_eq!(0, ob.bids());
    assert_eq!(0, ob.asks());
    assert_eq!("", ob.ticker());
    // both bests are 0 again: any price is the new top
    assert_eq!(buy(&mut ob, 1, 50, 10, 1), (ack(1, 1), best("B", 50, 10)));
    assert_eq!(sell(&mut ob, 1, 60, 10, 2), (ack(1, 2), best("S", 60, 10)));
}

#[test]
fn flush_resets_ticker_val() {
    let mut ob = OrderBook::new("VAL", false);
    ob.new_user_action(UserAction::Flush);
    assert_eq!("", ob.ticker());
}

#[test]
fn cancel_of_unknown_order_is_rejected() {
    let mut ob = four_orders(true);
    assert_eq!(cancel(&mut ob, 7, 7), (reject(7, 7), None));
    assert_eq!(cancel(&mut ob, 2, 102), (ack(2, 102), best("S", 12, 100)));
    assert_eq!(cancel(&mut ob, 2, 102), (reject(2, 102), None));
    // traded orders are gone too
    assert_eq!(
        sell(&mut ob, 3, 10, 100, 5).1,
        Some(Response::Trade {
            buyer_id: 1,
            buyer_order_id: 1,
            seller_id: 3,
            seller_order_id: 5,
            price: 10,
            qty: 100
        })
    );
    assert_eq!(cancel(&mut ob, 1, 1), (reject(1, 1), None));
    assert_eq!(cancel(&mut ob, 3, 5), (reject(3, 5), None));
}

#[test]
fn reinsert_after_cancel_matches_first_insert() {
    let mut ob = four_orders(false);
    let first = buy(&mut ob, 4, 10, 30, 40);
    assert_eq!(first, (ack(4, 40), best("B", 10, 130)));
    assert_eq!(cancel(&mut ob, 4, 40), (ack(4, 40), best("B", 10, 100)));
    assert_eq!(buy(&mut ob, 4, 10, 30, 40), first);

    let first = sell(&mut ob, 4, 15, 30, 41);
    assert_eq!(first, (ack(4, 41), None));
    assert_eq!(cancel(&mut ob, 4, 41), (ack(4, 41), None));
    assert_eq!(sell(&mut ob, 4, 15, 30, 41), first);
}

#[test]
fn trade_that_empties_a_side_resets_its_best() {
    let mut ob = OrderBook::new("VAL", true);
    sell(&mut ob, 2, 11, 100, 102);
    let r = buy(&mut ob, 1, 11, 100, 2);
    assert_eq!(r.0, ack(1, 2));
    assert_eq!(0, ob.asks());
    assert_eq!(sell(&mut ob, 2, 12, 100, 103), (ack(2, 103), best("S", 12, 100)));
}

#[test]
fn crossing_without_level_at_price_is_rejected() {
    let mut ob = four_orders(true);
    assert_eq!(buy(&mut ob, 1, 13, 100, 3), (reject(1, 3), None));
    assert_eq!(buy(&mut ob, 1, 11, 60, 4), (reject(1, 4), None));
    assert_eq!(2, ob.asks());
}

#[test]
fn sell_trade_names_resting_buyer() {
    let mut ob = four_orders(true);
    assert_eq!(
        sell(&mut ob, 3, 9, 100, 7),
        (
            ack(3, 7),
            Some(Response::Trade {
                buyer_id: 2,
                buyer_order_id: 101,
                seller_id: 3,
                seller_order_id: 7,
                price: 9,
                qty: 100
            })
        )
    );
    assert_eq!(1, ob.bids());
}

#[test]
fn trade_takes_first_order_of_equal_quantity() {
    let mut ob = OrderBook::new("IBM", true);
    sell(&mut ob, 1, 11, 50, 1);
    sell(&mut ob, 2, 11, 100, 2);
    sell(&mut ob, 3, 11, 100, 3);
    let r = buy(&mut ob, 9, 11, 100, 9);
    assert_eq!(
        r.1,
        Some(Response::Trade {
            buyer_id: 9,
            buyer_order_id: 9,
            seller_id: 2,
            seller_order_id: 2,
            price: 11,
            qty: 100
        })
    );
    assert_eq!(cancel(&mut ob, 1, 1), (ack(1, 1), best("S", 11, 100)));
}

#[test]
fn cancel_at_best_reports_remaining_total() {
    let mut ob = OrderBook::new("IBM", false);
    assert_eq!(buy(&mut ob, 1, 10, 100, 1), (ack(1, 1), best("B", 10, 100)));
    assert_eq!(buy(&mut ob, 2, 10, 50, 2), (ack(2, 2), best("B", 10, 150)));
    assert_eq!(buy(&mut ob, 3, 10, 30, 3), (ack(3, 3), best("B", 10, 180)));
    assert_eq!(cancel(&mut ob, 1, 1), (ack(1, 1), best("B", 10, 80)));
}

#[test]
fn cancel_behind_best_with_others_left_reports_nothing() {
    let mut ob = four_orders(false);
    buy(&mut ob, 3, 9, 20, 5);
    assert_eq!(cancel(&mut ob, 2, 101), (ack(2, 101), None));
    assert_eq!(2, ob.bids());
}

#[test]
fn admits_refuses_zero_price_and_overflowing_totals() {
    let mut ob = OrderBook::new("IBM", false);
    let zero = UserAction::NewOrder {
        user_id: 1,
        symbol: String::from("IBM"),
        price: 0,
        qty: 1,
        side: String::from("B"),
        order_id: 1,
    };
    assert!(!ob.admits(&zero));
    buy(&mut ob, 1, 10, u32::MAX - 5, 1);
    let big = UserAction::NewOrder {
        user_id: 2,
        symbol: String::from("IBM"),
        price: 10,
        qty: 6,
        side: String::from("B"),
        order_id: 2,
    };
    assert!(!ob.admits(&big));
    let fits = UserAction::NewOrder {
        user_id: 2,
        symbol: String::from("IBM"),
        price: 10,
        qty: 5,
        side: String::from("B"),
        order_id: 2,
    };
    assert!(ob.admits(&fits));
    assert_eq!(ob.new_user_action(fits), (ack(2, 2), best("B", 10, u32::MAX)));
    assert!(ob.admits(&UserAction::Flush));
}

#[test]
fn side_tags() {
    assert_eq!(Side::new(String::from("B")), Side::Buy);
    assert_eq!(Side::new(String::from("Buy")), Side::Buy);
    assert_eq!(Side::new(String::from("S")), Side::Sell);
    assert_eq!(Side::new(String::new()), Side::Sell);
}

#[test]
fn orders_and_trades_make_responses() {
    let o = Order::new(1, 10, 100, 7);
    assert_eq!(o.price(), 10);
    assert_eq!(o.qty(), 100);
    assert_eq!(o.ack(), Response::Acknowledge { user_id: 1, order_id: 7 });
    assert_eq!(o.reject(), Response::Reject { user_id: 1, order_id: 7 });
    let t = Trade::new(o, Order::new(2, 10, 100, 8));
    assert_eq!(
        t.get_trade_response(),
        Response::Trade {
            buyer_id: 1,
            buyer_order_id: 7,
            seller_id: 2,
            seller_order_id: 8,
            price: 10,
            qty: 100
        }
    );
}

#[test]
fn responses_render_as_lines() {
    assert_eq!(Response::Acknowledge { user_id: 1, order_id: 2 }.render(), "A, 1, 2");
    assert_eq!(Response::Reject { user_id: 2, order_id: 103 }.render(), "R, 2, 103");
    assert_eq!(
        Response::Best { side: String::from("B"), price: 10, qty: 200 }.render(),
        "B, B, 10, 200"
    );
    assert_eq!(
        Response::Best { side: String::from("S"), price: 0, qty: 0 }.render(),
        "B, S, -, -"
    );
    assert_eq!(
        Response::Trade {
            buyer_id: 1,
            buyer_order_id: 103,
            seller_id: 1,
            seller_order_id: 2,
            price: 12,
            qty: 4294967295
        }
        .render(),
        "T, 1, 103, 1, 2, 12, 4294967295"
    );
}

#[test]
fn decimal_fields() {
    assert_eq!(parse_decimal("0"), Some(0));
    assert_eq!(parse_decimal("007"), Some(7));
    assert_eq!(parse_decimal("4294967295"), Some(u32::MAX));
    assert_eq!(parse_decimal("4294967296"), None);
    assert_eq!(parse_decimal(""), None);
    assert_eq!(parse_decimal("12a"), None);
}

#[test]
fn lines_become_actions() {
    match parse_line("N, 1, IBM, 10, 100, B, 1") {
        Some(UserAction::NewOrder { user_id, symbol, price, qty, side, order_id }) => {
            assert_eq!((user_id, price, qty, order_id), (1, 10, 100, 1));
            assert_eq!(symbol, "IBM");
            assert_eq!(side, "B");
        }
        _ => panic!("new order line not read"),
    }
    match parse_line("C, 2, 103") {
        Some(UserAction::CancelOrder { user_id, order_id }) => {
            assert_eq!((user_id, order_id), (2, 103));
        }
        _ => panic!("cancel line not read"),
    }
    assert!(matches!(parse_line("F"), Some(UserAction::Flush)));
    assert!(parse_line("").is_none());
    assert!(parse_line("# comment").is_none());
    assert!(parse_line("N, 1, IBM, 10, 100, X, 1").is_none());
    assert!(parse_line("N,1,IBM,10,100,B,1").is_none());
    assert!(parse_line("C, 1").is_none());
    assert!(parse_line("N, 1, IBM, 10, 99999999999, B, 1").is_none());
}

#[test]
fn groups_become_actions() {
    let g: Vec<String> = ["N, 3, VAL, 11, 100, S, 102", "3", "VAL", "11", "100", "S", "102"]
        .iter()
        .map(|s| s.to_string())
        .collect();
    match new_order_from_groups(&g) {
        Some(UserAction::NewOrder { user_id, symbol, price, qty, side, order_id }) => {
            assert_eq!((user_id, price, qty, order_id), (3, 11, 100, 102));
            assert_eq!(symbol, "VAL");
            assert_eq!(side, "S");
        }
        _ => panic!("groups not read"),
    }
    let c: Vec<String> = ["C, 1, 2", "1", "2"].iter().map(|s| s.to_string()).collect();
    assert!(matches!(
        cancel_from_groups(&c),
        Some(UserAction::CancelOrder { user_id: 1, order_id: 2 })
    ));
    assert!(cancel_from_groups(&g).is_none());
    assert!(new_order_from_groups(&c).is_none());
}

use matching_engine::orderbook::{Order, OrderBook, OrderType, Price, PRICE_SCALAR};

// Price units for a whole-number price: 1000.0 becomes 1000 * PRICE_SCALAR.
fn units(whole: u64) -> u64 {
    whole * PRICE_SCALAR
}

#[test]
fn orderbook_fill_market_order_ask() {
    let mut orderbook = OrderBook::new();

    let buy_limit_order1 = Order::new(OrderType::Bid, 40);
    let buy_limit_order2 = Order::new(OrderType::Bid, 35);

    orderbook.add_limit_order(units(1000), buy_limit_order1);
    orderbook.add_limit_order(units(990), buy_limit_order2);

    let mut sell_order = Order::new(OrderType::Ask, 30);

    let fill_result = orderbook.fill_market_order(&mut sell_order);
    let bid_limits = orderbook.fetch_bid_limits();
    let ask_limits = orderbook.fetch_ask_limits();
    println!("{:?}", ask_limits);

    // The whole order is absorbed by the best bid level (1000), at that
    // price alone; the 990 level is untouched.
    assert_eq!(fill_result.filled_size, 30);
    assert_eq!(fill_result.remaining_size, 0);
    assert_eq!(fill_result.avg_fill_price, units(1000));
    assert!(sell_order.is_filled());
    assert_eq!(fill_result.filled_orders.len(), 1);
    assert_eq!(fill_result.filled_orders[0].price, Price::new(units(1000)));
    assert_eq!(fill_result.filled_orders[0].size, 30);
    assert_eq!(bid_limits.len(), 2);
    assert_eq!(bid_limits[0].price, Price::new(units(1000)));
    assert_eq!(bid_limits[0].orders[0].size, 10);
    assert_eq!(bid_limits[1].price, Price::new(units(990)));
    assert_eq!(bid_limits[1].orders[0].size, 35);
    assert_eq!(ask_limits.len(), 0);
}

#[test]
fn limit_order_multi_fill() {
    let price = Price::new(units(10000));
    let mut limit = matching_engine::orderbook::Limit::new(price);

    let buy_limit_order_1 = Order::new(OrderType::Ask, 38);
    let buy_limit_order_2 = Order::new(OrderType::Ask, 62);
    limit.add_order(buy_limit_order_1);
    limit.add_order(buy_limit_order_2);

    let mut sell_market_order = Order::new(OrderType::Bid, 40);
    let mut sell_market_order_2 = Order::new(OrderType::Bid, 40);
    let fill_result = limit.fill_order_with_tracking(&mut sell_market_order, &mut Vec::new());

    // FIFO: the first fill fully drains the 38 and takes 2 from the 62,
    // leaving resting sizes 0 and 60 — not the reverse order.
    assert_eq!(fill_result, 40);
    assert_eq!(limit.orders[0].size, 0);
    assert_eq!(limit.orders[1].size, 60);

    let fill_result_2 =
        limit.fill_order_with_tracking(&mut sell_market_order_2, &mut Vec::new());
    assert_eq!(fill_result_2, 40);
    assert_eq!(sell_market_order.size, 0);
    assert_eq!(sell_market_order_2.size, 0);
    println!("{:?}", limit);
    // The drained order stays queued at zero; the second gave 2 to the
    // first fill and 40 to the second.
    assert_eq!(limit.orders[0].size, 0);
    assert_eq!(limit.orders[1].size, 20);
}

#[test]
fn fractional_prices_keep_priority_order() {
    // Levels half a unit apart are distinct and sorted exactly.
    let mut orderbook = OrderBook::new();
    let low = units(999) + PRICE_SCALAR / 2;
    let high = units(1000);
    orderbook.add_limit_order(high, Order::new(OrderType::Ask, 10));
    orderbook.add_limit_order(low, Order::new(OrderType::Ask, 10));

    let asks = orderbook.fetch_ask_limits();
    assert_eq!(asks.len(), 2);
    assert_eq!(asks[0].price, Price::new(low));
    assert_eq!(asks[1].price, Price::new(high));

    // A buy of 15 takes all 10 at 999.5 and 5 at 1000:
    // avg = (10 * 99_950_000 + 5 * 100_000_000) / 15.
    let mut buy_order = Order::new(OrderType::Bid, 15);
    let fill_result = orderbook.fill_market_order(&mut buy_order);
    assert_eq!(fill_result.filled_size, 15);
    assert_eq!(fill_result.avg_fill_price, 99_966_666);
    assert_eq!(fill_result.filled_orders.len(), 2);
    assert_eq!(fill_result.filled_orders[0].price, Price::new(low));
    assert_eq!(fill_result.filled_orders[0].size, 10);
    assert_eq!(fill_result.filled_orders[1].price, Price::new(high));
    assert_eq!(fill_result.filled_orders[1].size, 5);
}

#[test]
fn market_order_semi_fill() {
    let price = Price::new(units(10000));
    let mut limit = matching_engine::orderbook::Limit::new(price);

    let buy_limit_order_1 = Order::new(OrderType::Ask, 20);
    let buy_limit_order_2 = Order::new(OrderType::Ask, 20);
    limit.add_order(buy_limit_order_1);
    limit.add_order(buy_limit_order_2);

    let mut sell_market_order = Order::new(OrderType::Bid, 50);
    let fill_result = limit.fill_order_with_tracking(&mut sell_market_order, &mut Vec::new());
    assert_eq!(fill_result, 40);
    assert_eq!(sell_market_order.size, 10);
    println!("{:?}", limit);
    assert_eq!(limit.orders[0].size, 0);
    assert_eq!(limit.orders[1].size, 0);
    assert_eq!(sell_market_order.is_filled(), false);
}

#[test]
fn test_total_volumes() {
    let price = Price::new(units(10000));
    let mut limit = matching_engine::orderbook::Limit::new(price);

    let buy_limit_order_1 = Order::new(OrderType::Ask, 20);
    let buy_limit_order_2 = Order::new(OrderType::Ask, 20);
    limit.add_order(buy_limit_order_1);
    limit.add_order(buy_limit_order_2);

    let total_liquidity = limit.get_liquidity();
    assert_eq!(total_liquidity, 40);
}

#[test]
fn price_determinism_and_hashing() {
    // Equal inputs build equal prices, and hashing agrees with equality:
    // the same units inserted twice occupy one map slot.
    let v: u64 = 123456789;
    assert_eq!(Price::new(v), Price::new(v));
    let mut seen = std::collections::HashMap::new();
    seen.insert(Price::new(v), 1u32);
    seen.insert(Price::new(v), 2u32);
    assert_eq!(seen.len(), 1);
    assert_eq!(seen[&Price::new(v)], 2);
}

#[test]
fn price_ordering() {
    let p1 = Price::new(units(990) + 1);
    let p2 = Price::new(units(990) + 2);
    assert!(p1 < p2);
    assert!(p1.lt(&p2));
    assert!(!p2.lt(&p1));
    assert_ne!(p1, p2);
    assert_eq!(p1.units(), units(990) + 1);
}

#[test]
fn fill_conservation() {
    // filled_size + remaining_size always reassembles the incoming size.
    let mut orderbook = OrderBook::new();
    orderbook.add_limit_order(units(1000), Order::new(OrderType::Ask, 7));
    orderbook.add_limit_order(units(1001), Order::new(OrderType::Ask, 11));

    let mut buy_order = Order::new(OrderType::Bid, 50);
    let fill_result = orderbook.fill_market_order(&mut buy_order);
    assert_eq!(fill_result.filled_size, 18);
    assert_eq!(fill_result.remaining_size, 32);
    assert_eq!(fill_result.filled_size + fill_result.remaining_size, 50);
    assert_eq!(buy_order.size, 32);
}

#[test]
fn avg_price_across_levels() {
    // 20 units at 1000 and 10 units at 990: the volume-weighted average is
    // (20 * 1000 + 10 * 990) / 30, truncated to whole price units.
    let mut orderbook = OrderBook::new();
    orderbook.add_limit_order(units(1000), Order::new(OrderType::Bid, 20));
    orderbook.add_limit_order(units(990), Order::new(OrderType::Bid, 20));

    let mut sell_order = Order::new(OrderType::Ask, 30);
    let fill_result = orderbook.fill_market_order(&mut sell_order);
    assert_eq!(fill_result.filled_size, 30);
    assert_eq!(fill_result.remaining_size, 0);
    // (20 * 100_000_000 + 10 * 99_000_000) / 30 = 2_990_000_000 / 30,
    // truncated.
    assert_eq!(fill_result.avg_fill_price, 99_666_666);
    assert_eq!(fill_result.filled_orders.len(), 2);
    assert_eq!(fill_result.filled_orders[0].price, Price::new(units(1000)));
    assert_eq!(fill_result.filled_orders[0].size, 20);
    assert_eq!(fill_result.filled_orders[1].price, Price::new(units(990)));
    assert_eq!(fill_result.filled_orders[1].size, 10);
}

#[test]
fn liquidity_drained_to_zero() {
    // A market order consuming all 40 resting units leaves zero liquidity
    // and both resting orders individually filled.
    let mut orderbook = OrderBook::new();
    orderbook.add_limit_order(units(500), Order::new(OrderType::Ask, 20));
    orderbook.add_limit_order(units(500), Order::new(OrderType::Ask, 20));

    let ask_limits = orderbook.fetch_ask_limits();
    assert_eq!(ask_limits.len(), 1);
    assert_eq!(ask_limits[0].get_liquidity(), 40);

    let mut buy_order = Order::new(OrderType::Bid, 40);
    let fill_result = orderbook.fill_market_order(&mut buy_order);
    assert_eq!(fill_result.filled_size, 40);

    let ask_limits = orderbook.fetch_ask_limits();
    assert_eq!(ask_limits[0].get_liquidity(), 0);
    assert!(ask_limits[0].orders[0].is_filled());
    assert!(ask_limits[0].orders[1].is_filled());
}

#[test]
fn priority_ordering_end_to_end() {
    // Resting bids at 1000 and 990: an incoming ask of 30 fills entirely
    // from the 1000 level, best price first, leaving 990 untouched.
    let mut orderbook = OrderBook::new();
    orderbook.add_limit_order(units(990), Order::new(OrderType::Bid, 35));
    orderbook.add_limit_order(units(1000), Order::new(OrderType::Bid, 40));

    let mut sell_order = Order::new(OrderType::Ask, 30);
    let fill_result = orderbook.fill_market_order(&mut sell_order);
    assert_eq!(fill_result.filled_size, 30);
    assert_eq!(fill_result.avg_fill_price, units(1000));
    assert_eq!(fill_result.filled_orders.len(), 1);
    assert_eq!(fill_result.filled_orders[0].price, Price::new(units(1000)));

    let bid_limits = orderbook.fetch_bid_limits();
    assert_eq!(bid_limits[0].price, Price::new(units(1000)));
    assert_eq!(bid_limits[0].orders[0].size, 10);
    assert_eq!(bid_limits[1].price, Price::new(units(990)));
    assert_eq!(bid_limits[1].orders[0].size, 35);
}

#[test]
fn fetch_limits_sorted_by_priority() {
    let mut orderbook = OrderBook::new();
    orderbook.add_limit_order(units(995), Order::new(OrderType::Ask, 1));
    orderbook.add_limit_order(units(990), Order::new(OrderType::Ask, 2));
    orderbook.add_limit_order(units(1000), Order::new(OrderType::Ask, 3));
    orderbook.add_limit_order(units(995), Order::new(OrderType::Bid, 4));
    orderbook.add_limit_order(units(990), Order::new(OrderType::Bid, 5));
    orderbook.add_limit_order(units(1000), Order::new(OrderType::Bid, 6));

    let asks = orderbook.fetch_ask_limits();
    assert_eq!(asks.len(), 3);
    assert_eq!(asks[0].price, Price::new(units(990)));
    assert_eq!(asks[1].price, Price::new(units(995)));
    assert_eq!(asks[2].price, Price::new(units(1000)));

    let bids = orderbook.fetch_bid_limits();
    assert_eq!(bids.len(), 3);
    assert_eq!(bids[0].price, Price::new(units(1000)));
    assert_eq!(bids[1].price, Price::new(units(995)));
    assert_eq!(bids[2].price, Price::new(units(990)));
}

#[test]
fn same_price_level_is_reused() {
    let mut orderbook = OrderBook::new();
    orderbook.add_limit_order(units(750), Order::new(OrderType::Ask, 5));
    orderbook.add_limit_order(units(750), Order::new(OrderType::Ask, 6));

    let asks = orderbook.fetch_ask_limits();
    assert_eq!(asks.len(), 1);
    assert_eq!(asks[0].orders.len(), 2);
    assert_eq!(asks[0].orders[0].size, 5);
    assert_eq!(asks[0].orders[1].size, 6);
}

#[test]
fn fill_against_empty_book() {
    let mut orderbook = OrderBook::new();
    let mut buy_order = Order::new(OrderType::Bid, 25);
    let fill_result = orderbook.fill_market_order(&mut buy_order);
    assert_eq!(fill_result.filled_size, 0);
    assert_eq!(fill_result.remaining_size, 25);
    assert_eq!(fill_result.avg_fill_price, 0);
    assert_eq!(fill_result.filled_orders.len(), 0);
    assert!(!buy_order.is_filled());
}

#[test]
fn fill_with_zero_size_order() {
    let mut orderbook = OrderBook::new();
    orderbook.add_limit_order(units(1000), Order::new(OrderType::Bid, 40));
    let mut sell_order = Order::new(OrderType::Ask, 0);
    let fill_result = orderbook.fill_market_order(&mut sell_order);
    assert_eq!(fill_result.filled_size, 0);
    assert_eq!(fill_result.remaining_size, 0);
    assert_eq!(fill_result.avg_fill_price, 0);
    assert_eq!(fill_result.filled_orders.len(), 0);
    let bids = orderbook.fetch_bid_limits();
    assert_eq!(bids[0].orders[0].size, 40);
}

#[test]
fn fractional_price_decomposition() {
    // 1000.5 in price units decomposes into integral 1000 and fractional
    // half of the scalar.
    let p = Price::new(units(1000) + PRICE_SCALAR / 2);
    assert_eq!(p.integral, 1000);
    assert_eq!(p.fractional, PRICE_SCALAR / 2);
    assert_eq!(p.scalar, PRICE_SCALAR);
    assert_eq!(p.units(), units(1000) + PRICE_SCALAR / 2);
}

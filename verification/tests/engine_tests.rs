use matching_engine::engine::{MatchingEngine, TradingPair};
use matching_engine::orderbook::{Order, OrderType, Price, PRICE_SCALAR};

#[test]
fn trading_pair_display_form() {
    let pair = TradingPair::new("BTC".to_string(), "USD".to_string());
    assert_eq!(pair.to_string(), "BTC/USD");
    assert!(pair.matches(&TradingPair::new("BTC".to_string(), "USD".to_string())));
    assert!(!pair.matches(&TradingPair::new("ETH".to_string(), "USD".to_string())));
}

#[test]
fn place_limit_order_on_registered_market() {
    let mut engine = MatchingEngine::new();
    let pair = TradingPair::new("BTC".to_string(), "USD".to_string());
    engine.add_new_market(pair.clone());

    let order = Order::new(OrderType::Bid, 10);
    let result = engine.place_limit_order(pair, 10_000 * PRICE_SCALAR, order);
    assert!(result.is_ok());

    let bids = engine.orderbooks[0].1.fetch_bid_limits();
    assert_eq!(bids.len(), 1);
    assert_eq!(bids[0].price, Price::new(10_000 * PRICE_SCALAR));
    assert_eq!(bids[0].orders[0].size, 10);
}

#[test]
fn unknown_market_is_reported() {
    let mut engine = MatchingEngine::new();
    let eth = TradingPair::new("ETH".to_string(), "USD".to_string());
    engine.add_new_market(eth.clone());
    engine
        .place_limit_order(eth, 1_000 * PRICE_SCALAR, Order::new(OrderType::Bid, 5))
        .unwrap();

    // Placing against an unregistered pair fails with the pair's name and
    // mutates no existing book.
    let btc = TradingPair::new("BTC".to_string(), "USD".to_string());
    let result = engine.place_limit_order(btc, 10_000 * PRICE_SCALAR, Order::new(OrderType::Bid, 7));
    assert_eq!(result, Err("Market not found: BTC/USD".to_string()));

    assert_eq!(engine.orderbooks.len(), 1);
    let bids = engine.orderbooks[0].1.fetch_bid_limits();
    assert_eq!(bids.len(), 1);
    assert_eq!(bids[0].orders.len(), 1);
    assert_eq!(bids[0].orders[0].size, 5);
    assert_eq!(engine.orderbooks[0].1.fetch_ask_limits().len(), 0);
}

#[test]
fn reregistering_a_market_replaces_its_book() {
    let mut engine = MatchingEngine::new();
    let pair = TradingPair::new("BTC".to_string(), "USD".to_string());
    engine.add_new_market(pair.clone());
    engine
        .place_limit_order(pair.clone(), 10_000 * PRICE_SCALAR, Order::new(OrderType::Ask, 3))
        .unwrap();
    assert_eq!(engine.orderbooks[0].1.fetch_ask_limits().len(), 1);

    engine.add_new_market(pair.clone());
    assert_eq!(engine.orderbooks.len(), 1);
    assert_eq!(engine.orderbooks[0].1.fetch_ask_limits().len(), 0);

    // The replaced market accepts orders again.
    let result = engine.place_limit_order(pair, 9_000 * PRICE_SCALAR, Order::new(OrderType::Ask, 4));
    assert!(result.is_ok());
    let asks = engine.orderbooks[0].1.fetch_ask_limits();
    assert_eq!(asks[0].orders[0].size, 4);
}

#[test]
fn engine_routes_to_the_right_book() {
    let mut engine = MatchingEngine::new();
    let btc = TradingPair::new("BTC".to_string(), "USD".to_string());
    let eth = TradingPair::new("ETH".to_string(), "USD".to_string());
    engine.add_new_market(btc.clone());
    engine.add_new_market(eth.clone());

    engine
        .place_limit_order(btc, 10_000 * PRICE_SCALAR, Order::new(OrderType::Bid, 1))
        .unwrap();
    engine
        .place_limit_order(eth, 1_000 * PRICE_SCALAR, Order::new(OrderType::Bid, 2))
        .unwrap();

    assert_eq!(engine.orderbooks.len(), 2);
    let btc_bids = engine.orderbooks[0].1.fetch_bid_limits();
    let eth_bids = engine.orderbooks[1].1.fetch_bid_limits();
    assert_eq!(btc_bids[0].price, Price::new(10_000 * PRICE_SCALAR));
    assert_eq!(btc_bids[0].orders[0].size, 1);
    assert_eq!(eth_bids[0].price, Price::new(1_000 * PRICE_SCALAR));
    assert_eq!(eth_bids[0].orders[0].size, 2);
}

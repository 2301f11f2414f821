use matching_engine::api::parse_symbol;
use matching_engine::config::LoggingConfig;
use matching_engine::database::DatabaseConfig;
use matching_engine::websocket::{should_send_trade, ConnectionInfo, SubscriptionType};
use matching_engine::market_data::{recent_trades, summarize};
use matching_engine::matching_engine::{EngineError, MatchingEngine};
use matching_engine::orderbook::{BookError, OrderBook};
use matching_engine::types::{
    Order, OrderSide, OrderStatus, OrderType, Symbol, Trade, WebSocketMessage, PRICE_SCALE,
    QUANTITY_SCALE,
};

fn px(x: f64) -> u64 {
    (x * PRICE_SCALE as f64).round() as u64
}

fn qty(x: f64) -> u64 {
    (x * QUANTITY_SCALE as f64).round() as u64
}

fn btc() -> Symbol {
    Symbol::new("BTC", "USDT")
}

fn limit(side: OrderSide, q: f64, p: f64, user: &str) -> Order {
    Order::new(btc(), side, OrderType::Limit, qty(q), Some(px(p)), user.to_string())
}

fn trade(q: f64, p: f64) -> Trade {
    Trade {
        id: 1,
        symbol: btc(),
        buy_order_id: 2,
        sell_order_id: 3,
        quantity: qty(q),
        price: px(p),
        timestamp: 0,
        buyer_id: "b".to_string(),
        seller_id: "s".to_string(),
    }
}

#[test]
fn test_logging_config_default() {
    let config = LoggingConfig::default();
    assert_eq!(config.level, "info");
    assert!(config.console);
    assert!(!config.json_format);
    assert!(config.file.is_none());
}

#[test]
fn test_logging_config_custom() {
    let config = LoggingConfig {
        level: "debug".to_string(),
        file: Some("/tmp/test.log".to_string()),
        console: false,
        json_format: true,
    };

    assert_eq!(config.level, "debug");
    assert!(!config.console);
    assert!(config.json_format);
    assert!(config.file.is_some());
}

#[test]
fn test_matching_engine_basic_matching() {
    let mut engine = MatchingEngine::new();
    let symbol = Symbol::new("BTC", "USDT");

    let sell_order = Order::new(
        symbol.clone(),
        OrderSide::Sell,
        OrderType::Limit,
        qty(1.0),
        Some(px(50000.0)),
        "seller".to_string(),
    );
    let trades = engine.submit_order(sell_order).unwrap();
    assert_eq!(trades.len(), 0);

    let buy_order = Order::new(
        symbol.clone(),
        OrderSide::Buy,
        OrderType::Limit,
        qty(1.0),
        Some(px(50000.0)),
        "buyer".to_string(),
    );
    let trades = engine.submit_order(buy_order).unwrap();
    assert_eq!(trades.len(), 1);
    assert_eq!(trades[0].quantity, qty(1.0));
    assert_eq!(trades[0].price, px(50000.0));
}

#[test]
fn test_matching_engine_partial_fill() {
    let mut engine = MatchingEngine::new();
    let symbol = Symbol::new("BTC", "USDT");

    let sell_order = Order::new(
        symbol.clone(),
        OrderSide::Sell,
        OrderType::Limit,
        qty(2.0),
        Some(px(50000.0)),
        "seller".to_string(),
    );
    engine.submit_order(sell_order).unwrap();

    let buy_order = Order::new(
        symbol.clone(),
        OrderSide::Buy,
        OrderType::Limit,
        qty(1.0),
        Some(px(50000.0)),
        "buyer".to_string(),
    );
    let trades = engine.submit_order(buy_order).unwrap();
    assert_eq!(trades.len(), 1);
    assert_eq!(trades[0].quantity, qty(1.0));

    let orderbook_depth = engine.get_orderbook_depth(&symbol, None).unwrap();
    assert_eq!(orderbook_depth.asks.len(), 1);
    assert_eq!(orderbook_depth.asks[0].total_quantity, qty(1.0) as u128);
}

#[test]
fn test_orderbook_basic_operations() {
    let symbol = Symbol::new("BTC", "USDT");
    let mut orderbook = OrderBook::new(symbol.clone());

    let buy_order = Order::new(
        symbol.clone(),
        OrderSide::Buy,
        OrderType::Limit,
        qty(1.0),
        Some(px(50000.0)),
        "user1".to_string(),
    );
    orderbook.add_order(buy_order.clone()).unwrap();
    assert_eq!(orderbook.best_bid(), Some(px(50000.0)));
    assert_eq!(orderbook.best_ask(), None);

    let sell_order = Order::new(
        symbol.clone(),
        OrderSide::Sell,
        OrderType::Limit,
        qty(1.0),
        Some(px(51000.0)),
        "user2".to_string(),
    );
    orderbook.add_order(sell_order.clone()).unwrap();
    assert_eq!(orderbook.best_ask(), Some(px(51000.0)));
    assert_eq!(orderbook.spread(), Some(px(1000.0) as i128));

    // A bid at 50000 is not marketable against the ask at 51000.
    let matching_orders = orderbook.get_matching_orders(&buy_order);
    assert_eq!(matching_orders.len(), 0);
    // A bid at 51000 is, and meets exactly that ask.
    let crossing = limit(OrderSide::Buy, 1.0, 51000.0, "user3");
    let matching_orders = orderbook.get_matching_orders(&crossing);
    assert_eq!(matching_orders.len(), 1);
    assert_eq!(matching_orders[0].order.id, sell_order.id);
}

#[test]
fn test_price_priority() {
    let symbol = Symbol::new("BTC", "USDT");
    let mut orderbook = OrderBook::new(symbol.clone());
    let order1 = limit(OrderSide::Buy, 1.0, 50000.0, "user1");
    let order2 = limit(OrderSide::Buy, 1.0, 51000.0, "user2");
    let order3 = limit(OrderSide::Buy, 1.0, 49000.0, "user3");
    orderbook.add_order(order1).unwrap();
    orderbook.add_order(order2).unwrap();
    orderbook.add_order(order3).unwrap();
    assert_eq!(orderbook.best_bid(), Some(px(51000.0)));
}

#[test]
fn simple_cross() {
    let mut engine = MatchingEngine::new();
    let sell = limit(OrderSide::Sell, 1.0, 50000.0, "s");
    let sell_id = sell.id;
    assert!(engine.submit_order(sell).unwrap().is_empty());
    let buy = limit(OrderSide::Buy, 1.0, 50000.0, "b");
    let buy_id = buy.id;
    let trades = engine.submit_order(buy).unwrap();
    assert_eq!(trades.len(), 1);
    assert_eq!(trades[0].quantity, qty(1.0));
    assert_eq!(trades[0].price, px(50000.0));
    assert_eq!(trades[0].buyer_id, "b");
    assert_eq!(trades[0].seller_id, "s");
    assert_eq!(trades[0].buy_order_id, buy_id);
    assert_eq!(trades[0].sell_order_id, sell_id);
    assert_eq!(engine.get_order(sell_id).unwrap().status, OrderStatus::Filled);
    assert_eq!(engine.get_order(buy_id).unwrap().status, OrderStatus::Filled);
    let depth = engine.get_orderbook_depth(&btc(), None).unwrap();
    assert!(depth.bids.is_empty() && depth.asks.is_empty());
    let book = &engine.orderbooks[0];
    assert_eq!(book.best_bid(), None);
    assert_eq!(book.best_ask(), None);
}

#[test]
fn partial_fill_on_resting_side() {
    let mut engine = MatchingEngine::new();
    let sell = limit(OrderSide::Sell, 2.0, 50000.0, "s");
    let sell_id = sell.id;
    engine.submit_order(sell).unwrap();
    let trades = engine.submit_order(limit(OrderSide::Buy, 1.0, 50000.0, "b")).unwrap();
    assert_eq!(trades.len(), 1);
    assert_eq!(trades[0].price, px(50000.0));
    assert_eq!(trades[0].quantity, qty(1.0));
    let resting = engine.get_order(sell_id).unwrap();
    assert_eq!(resting.status, OrderStatus::PartiallyFilled);
    assert_eq!(resting.remaining_quantity, qty(1.0));
    let depth = engine.get_orderbook_depth(&btc(), None).unwrap();
    assert_eq!(depth.asks.len(), 1);
    assert_eq!(depth.asks[0].price, px(50000.0));
    assert_eq!(depth.asks[0].total_quantity, qty(1.0) as u128);
    assert_eq!(depth.asks[0].order_count, 1);
}

#[test]
fn price_time_priority() {
    let mut engine = MatchingEngine::new();
    let s1 = limit(OrderSide::Sell, 1.0, 50000.0, "s1");
    let s2 = limit(OrderSide::Sell, 1.0, 50000.0, "s2");
    let s1_id = s1.id;
    let s2_id = s2.id;
    engine.submit_order(s1).unwrap();
    engine.submit_order(s2).unwrap();
    let trades = engine.submit_order(limit(OrderSide::Buy, 1.0, 50000.0, "b")).unwrap();
    assert_eq!(trades.len(), 1);
    assert_eq!(trades[0].sell_order_id, s1_id);
    assert_eq!(trades[0].seller_id, "s1");
    assert_eq!(engine.orderbooks[0].asks[0].order.id, s2_id);
}

#[test]
fn maker_price_rule() {
    let mut engine = MatchingEngine::new();
    engine.submit_order(limit(OrderSide::Sell, 1.0, 50000.0, "s")).unwrap();
    let trades = engine.submit_order(limit(OrderSide::Buy, 1.0, 50100.0, "b")).unwrap();
    assert_eq!(trades.len(), 1);
    assert_eq!(trades[0].price, px(50000.0));
}

#[test]
fn sweep_across_levels() {
    let mut engine = MatchingEngine::new();
    engine.submit_order(limit(OrderSide::Sell, 0.5, 50000.0, "a")).unwrap();
    engine.submit_order(limit(OrderSide::Sell, 0.5, 50100.0, "b")).unwrap();
    engine.submit_order(limit(OrderSide::Sell, 0.5, 50200.0, "c")).unwrap();
    let buy = limit(OrderSide::Buy, 1.2, 50500.0, "u");
    let buy_id = buy.id;
    let trades = engine.submit_order(buy).unwrap();
    assert_eq!(trades.len(), 3);
    assert_eq!((trades[0].price, trades[0].quantity), (px(50000.0), qty(0.5)));
    assert_eq!((trades[1].price, trades[1].quantity), (px(50100.0), qty(0.5)));
    assert_eq!((trades[2].price, trades[2].quantity), (px(50200.0), qty(0.2)));
    // 0.5 + 0.5 + 0.2 fills the whole 1.2: nothing of the buy is left to rest.
    let me = engine.get_order(buy_id).unwrap();
    assert_eq!(me.remaining_quantity, 0);
    assert_eq!(me.status, OrderStatus::Filled);
    let depth = engine.get_orderbook_depth(&btc(), None).unwrap();
    assert!(depth.bids.is_empty());
    assert_eq!(depth.asks.len(), 1);
    assert_eq!(depth.asks[0].price, px(50200.0));
    assert_eq!(depth.asks[0].total_quantity, qty(0.3) as u128);
    assert_eq!(depth.asks[0].order_count, 1);
}

#[test]
fn cancel_then_new_submission() {
    let mut engine = MatchingEngine::new();
    let first = limit(OrderSide::Buy, 1.0, 50000.0, "u");
    let first_id = first.id;
    engine.submit_order(first).unwrap();
    let cancelled = engine.cancel_order(first_id, "u".to_string()).unwrap();
    assert_eq!(cancelled.status, OrderStatus::Cancelled);
    let again = limit(OrderSide::Buy, 1.0, 50000.0, "u");
    let again_id = again.id;
    assert_ne!(again_id, first_id);
    engine.submit_order(again).unwrap();
    assert_eq!(
        engine.cancel_order(first_id, "u".to_string()).unwrap_err(),
        EngineError::AlreadyCancelled
    );
    assert_eq!(
        engine.cancel_order(again_id, "other".to_string()).unwrap_err(),
        EngineError::Unauthorized
    );
}

#[test]
fn cancel_errors() {
    let mut engine = MatchingEngine::new();
    assert_eq!(engine.cancel_order(42, "u".to_string()).unwrap_err(), EngineError::OrderNotFound);
    let sell = limit(OrderSide::Sell, 1.0, 100.0, "s");
    let sell_id = sell.id;
    engine.submit_order(sell).unwrap();
    engine.submit_order(limit(OrderSide::Buy, 1.0, 100.0, "b")).unwrap();
    assert_eq!(engine.cancel_order(sell_id, "s".to_string()).unwrap_err(), EngineError::AlreadyFilled);
    let market = Order::new(btc(), OrderSide::Buy, OrderType::Market, qty(1.0), None, "m".to_string());
    let market_id = market.id;
    engine.submit_order(market).unwrap();
    assert_eq!(engine.get_order(market_id).unwrap().status, OrderStatus::Rejected);
    assert_eq!(engine.cancel_order(market_id, "m".to_string()).unwrap_err(), EngineError::AlreadyRejected);
}

#[test]
fn validation_errors() {
    let mut engine = MatchingEngine::new();
    let zero = Order::new(btc(), OrderSide::Buy, OrderType::Limit, 0, Some(px(1.0)), "u".to_string());
    assert_eq!(engine.submit_order(zero).unwrap_err(), EngineError::InvalidQuantity);
    let no_price = Order::new(btc(), OrderSide::Buy, OrderType::Limit, qty(1.0), None, "u".to_string());
    assert_eq!(engine.submit_order(no_price).unwrap_err(), EngineError::MissingPrice);
    let zero_price = Order::new(btc(), OrderSide::Buy, OrderType::Limit, qty(1.0), Some(0), "u".to_string());
    assert_eq!(engine.submit_order(zero_price).unwrap_err(), EngineError::InvalidPrice);
    let no_user = Order::new(btc(), OrderSide::Buy, OrderType::Limit, qty(1.0), Some(px(1.0)), String::new());
    assert_eq!(engine.submit_order(no_user).unwrap_err(), EngineError::EmptyUserId);
    let stop = Order::new(btc(), OrderSide::Buy, OrderType::StopLoss, qty(1.0), Some(px(1.0)), "u".to_string());
    assert_eq!(engine.submit_order(stop).unwrap_err(), EngineError::UnsupportedOrderType);
    let ok = limit(OrderSide::Buy, 1.0, 1.0, "u");
    let dup = ok.clone();
    engine.submit_order(ok).unwrap();
    assert_eq!(engine.submit_order(dup).unwrap_err(), EngineError::DuplicateOrderId);
    assert_eq!(engine.get_stats().total_orders, 1);
}

#[test]
fn market_order_partial_liquidity() {
    let mut engine = MatchingEngine::new();
    engine.submit_order(limit(OrderSide::Sell, 0.4, 100.0, "s")).unwrap();
    let market = Order::new(btc(), OrderSide::Buy, OrderType::Market, qty(1.0), None, "m".to_string());
    let id = market.id;
    let trades = engine.submit_order(market).unwrap();
    assert_eq!(trades.len(), 1);
    assert_eq!(trades[0].quantity, qty(0.4));
    let o = engine.get_order(id).unwrap();
    assert_eq!(o.status, OrderStatus::Rejected);
    assert_eq!(o.filled_quantity, qty(0.4));
    assert_eq!(o.remaining_quantity, qty(0.6));
    assert!(engine.orderbooks[0].bids.is_empty());
}

#[test]
fn conservation_and_spread() {
    let mut engine = MatchingEngine::new();
    let s = limit(OrderSide::Sell, 3.0, 100.0, "s");
    let s_id = s.id;
    engine.submit_order(s).unwrap();
    let mut total: u64 = 0;
    for _ in 0..2 {
        for t in engine.submit_order(limit(OrderSide::Buy, 1.0, 101.0, "b")).unwrap() {
            total += t.quantity;
        }
    }
    let o = engine.get_order(s_id).unwrap();
    assert_eq!(o.quantity, o.remaining_quantity + total);
    engine.submit_order(limit(OrderSide::Buy, 1.0, 99.0, "b")).unwrap();
    let book = &engine.orderbooks[0];
    assert!(book.best_ask().unwrap() >= book.best_bid().unwrap());
    assert!(book.spread().unwrap() >= 0);
}

#[test]
fn statistics_and_events() {
    let mut engine = MatchingEngine::new();
    engine.submit_order(limit(OrderSide::Sell, 1.0, 100.0, "s")).unwrap();
    let before = engine.get_stats();
    engine.take_events();
    let buy = limit(OrderSide::Buy, 1.0, 100.0, "b");
    let buy_id = buy.id;
    engine.submit_order(buy).unwrap();
    let after = engine.get_stats();
    assert!(after.total_orders >= before.total_orders);
    assert!(after.total_trades >= before.total_trades);
    assert_eq!(after.total_orders, 2);
    assert_eq!(after.total_trades, 1);
    assert_eq!(after.active_orders, 0);
    assert_eq!(after.total_volume, qty(1.0) as u128 * px(100.0) as u128);
    let events = engine.take_events();
    assert_eq!(events.len(), 4);
    assert!(matches!(events[0], WebSocketMessage::Trade(_)));
    assert!(matches!(events[1], WebSocketMessage::OrderUpdate(_)));
    match &events[2] {
        WebSocketMessage::OrderUpdate(o) => {
            assert_eq!(o.id, buy_id);
            assert_eq!(o.status, OrderStatus::Filled);
        }
        _ => panic!("expected the order's own update"),
    }
    assert!(matches!(events[3], WebSocketMessage::MarketData(_)));
    assert!(engine.take_events().is_empty());
    let md = engine.get_market_data(&btc()).unwrap();
    assert_eq!(md.last_price, px(100.0));
    assert_eq!(engine.get_all_market_data().len(), 1);
    assert_eq!(engine.get_user_orders("b").len(), 1);
    assert_eq!(engine.get_trades(Some(&btc()), None).len(), 1);
}

#[test]
fn summary_of_window() {
    let window = vec![trade(1.0, 110.0), trade(2.0, 90.0), trade(1.0, 100.0)];
    let md = summarize(&btc(), &window);
    assert_eq!(md.last_price, px(110.0));
    assert_eq!(md.high_24h, px(110.0));
    assert_eq!(md.low_24h, px(90.0));
    assert_eq!(md.price_change_24h, 1000);
    let vol = qty(1.0) as u128 * px(110.0) as u128
        + qty(2.0) as u128 * px(90.0) as u128
        + qty(1.0) as u128 * px(100.0) as u128;
    assert_eq!(md.volume_24h, vol);
    let empty = summarize(&btc(), &Vec::new());
    assert_eq!(empty.low_24h, 0);
    assert_eq!(empty.price_change_24h, 0);
}

#[test]
fn trades_newest_first_with_limit() {
    let mut eth = trade(1.0, 5.0);
    eth.symbol = Symbol::new("eth", "usdt");
    let log = vec![trade(1.0, 1.0), eth, trade(1.0, 2.0), trade(1.0, 3.0)];
    let r = recent_trades(&log, Some(&btc()), Some(2));
    assert_eq!(r.len(), 2);
    assert_eq!(r[0].price, px(3.0));
    assert_eq!(r[1].price, px(2.0));
    assert_eq!(recent_trades(&log, None, None).len(), 4);
}

#[test]
fn symbol_upper_cases_and_joins() {
    let s = Symbol::new("btc", "usdt");
    assert_eq!(s.base, "BTC");
    assert_eq!(s.quote, "USDT");
    assert_eq!(s.to_string(), "BTCUSDT");
}

#[test]
fn book_errors() {
    let mut book = OrderBook::new(btc());
    let mut eth = limit(OrderSide::Buy, 1.0, 1.0, "u");
    eth.symbol = Symbol::new("ETH", "USDT");
    assert_eq!(book.add_order(eth), Err(BookError::SymbolMismatch));
    let no_price = Order::new(btc(), OrderSide::Buy, OrderType::Market, qty(1.0), None, "u".to_string());
    assert_eq!(book.add_order(no_price), Err(BookError::InvalidPrice));
    let o = limit(OrderSide::Buy, 1.0, 1.0, "u");
    let id = o.id;
    book.add_order(o.clone()).unwrap();
    assert_eq!(book.add_order(o), Err(BookError::DuplicateOrder));
    assert_eq!(book.update_order(id, qty(2.0)).unwrap_err(), BookError::QuantityIncrease);
    let u = book.update_order(id, qty(0.5)).unwrap();
    assert_eq!(u.status, OrderStatus::PartiallyFilled);
    assert_eq!(u.filled_quantity, qty(0.5));
    let u = book.update_order(id, 0).unwrap();
    assert_eq!(u.status, OrderStatus::Filled);
    assert!(book.bids.is_empty());
    assert_eq!(book.remove_order(id).unwrap_err(), BookError::NotFound);
    let stats = book.get_stats();
    assert_eq!(stats.bid_levels, 0);
}

#[test]
fn database_url() {
    let c = DatabaseConfig {
        host: "localhost".to_string(),
        port: 5432,
        database: "trading_engine".to_string(),
        username: "user".to_string(),
        password: "pw".to_string(),
        max_connections: 20,
        min_connections: 5,
    };
    assert_eq!(c.connection_url(), "postgresql://user:pw@localhost:5432/trading_engine");
}

#[test]
fn test_parse_symbol() {
    assert_eq!(parse_symbol("BTCUSDT").unwrap(), Symbol::new("BTC", "USDT"));
    assert_eq!(parse_symbol("BTC-USDT").unwrap(), Symbol::new("BTC", "USDT"));
    assert_eq!(parse_symbol("BTC/USDT").unwrap(), Symbol::new("BTC", "USDT"));
    assert_eq!(parse_symbol("ETHUSDT").unwrap(), Symbol::new("ETH", "USDT"));
}

#[test]
fn test_parse_symbol_invalid() {
    // Seven characters without a separator are split after the third.
    assert_eq!(parse_symbol("INVALID").unwrap(), Symbol::new("INV", "ALID"));
    assert!(parse_symbol("").is_err());
    assert!(parse_symbol("BTC").is_err());
    assert!(parse_symbol("A-B-C").is_err());
    assert_eq!(parse_symbol("eth-btc").unwrap(), Symbol::new("ETH", "BTC"));
}

#[test]
fn test_connection_info() {
    let info = ConnectionInfo::new();
    assert_eq!(info.subscriptions, vec![SubscriptionType::All]);
    assert!(info.symbols.is_empty());
}

#[test]
fn test_should_send_trade() {
    let mut info = ConnectionInfo::new();
    let trade = Trade {
        id: uuid::Uuid::new_v4().as_u128(),
        symbol: Symbol::new("BTC", "USDT"),
        buy_order_id: uuid::Uuid::new_v4().as_u128(),
        sell_order_id: uuid::Uuid::new_v4().as_u128(),
        quantity: qty(1.0),
        price: px(50000.0),
        timestamp: 0,
        buyer_id: "buyer".to_string(),
        seller_id: "seller".to_string(),
    };

    assert!(should_send_trade(&info, &trade));

    info.subscriptions = vec![SubscriptionType::Trades];
    assert!(should_send_trade(&info, &trade));

    info.subscriptions = vec![SubscriptionType::OrderBook];
    assert!(!should_send_trade(&info, &trade));

    info.subscriptions = vec![SubscriptionType::All];
    info.symbols = vec![Symbol::new("ETH", "USDT")];
    assert!(!should_send_trade(&info, &trade));
}

#[test]
fn place_rests_limit_residual_and_rejects_market_residual() {
    let mut book = OrderBook::new(btc());
    let mut ask = limit(OrderSide::Sell, 1.0, 100.0, "s");
    assert!(book.place(&mut ask).is_empty());
    assert_eq!(ask.status, OrderStatus::New);
    let mut bid = limit(OrderSide::Buy, 1.5, 101.0, "b");
    let fills = book.place(&mut bid);
    assert_eq!(fills.len(), 1);
    assert_eq!(fills[0].price, px(100.0));
    assert_eq!(fills[0].quantity, qty(1.0));
    assert_eq!(bid.status, OrderStatus::PartiallyFilled);
    assert_eq!(bid.remaining_quantity, qty(0.5));
    assert!(book.asks.is_empty());
    assert_eq!(book.bids.len(), 1);
    assert_eq!(book.bids[0].order.id, bid.id);
    let mut market = Order::new(btc(), OrderSide::Sell, OrderType::Market, qty(1.0), None, "m".to_string());
    let fills = book.place(&mut market);
    assert_eq!(fills.len(), 1);
    assert_eq!(market.status, OrderStatus::Rejected);
    assert_eq!(market.remaining_quantity, qty(0.5));
    assert!(book.bids.is_empty() && book.asks.is_empty());
}

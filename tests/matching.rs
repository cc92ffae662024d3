use exchange_core::broker::Broker;
use exchange_core::exchange::{Exchange, Trade};
use exchange_core::order::{Order, OrderType};

fn order(user: &str, side: OrderType, symbol: &str, price: i32, quantity: i32) -> Order {
    Order {
        id: 0,
        user_id: user.to_owned(),
        order_type: side,
        symbol: symbol.to_owned(),
        price,
        quantity,
    }
}

fn setup(cash: i32, holding: i32) -> (Broker, Exchange) {
    let mut broker = Broker::new();
    let mut exchange = Exchange::new();
    broker.add_user("a".to_owned());
    broker.add_user("b".to_owned());
    broker.update_balance("a", cash);
    exchange.update_asset_balance("AAPL".to_owned(), &"b".to_owned(), holding);
    (broker, exchange)
}

fn find(broker: &Broker, id: i32) -> Option<Order> {
    broker.get_open_orders().into_iter().find(|o| o.id == id)
}

#[test]
fn full_fill_records_one_trade() {
    let (mut broker, mut exchange) = setup(1000, 10);
    assert_eq!(broker.place_new_order(order("a", OrderType::Buy, "AAPL", 100, 10)), 0);
    assert_eq!(broker.place_new_order(order("b", OrderType::Sell, "AAPL", 100, 10)), 1);
    exchange.match_orders(&mut broker);
    assert_eq!(
        exchange.trades,
        vec![Trade {
            symbol: "AAPL".to_owned(),
            price: 100,
            quantity: 10,
            buy_order_id: 0,
            sell_order_id: 1,
        }]
    );
    assert!(broker.get_open_orders().is_empty());
    assert_eq!(exchange.get_asset_balance(&"a".to_owned(), "AAPL"), Some(10));
    assert_eq!(exchange.get_asset_balance(&"b".to_owned(), "AAPL"), Some(0));
    assert_eq!(broker.get_balance("a"), Some(0));
    assert_eq!(broker.get_balance("b"), Some(1000));
}

#[test]
fn insufficient_funds_evicts_buy_order() {
    let (mut broker, mut exchange) = setup(999, 10);
    broker.place_new_order(order("a", OrderType::Buy, "AAPL", 100, 10));
    broker.place_new_order(order("b", OrderType::Sell, "AAPL", 100, 10));
    exchange.match_orders(&mut broker);
    assert!(exchange.trades.is_empty());
    assert!(!broker.has_order(0));
    assert!(broker.has_order(1));
    assert_eq!(broker.get_balance("a"), Some(999));
    assert_eq!(exchange.get_asset_balance(&"b".to_owned(), "AAPL"), Some(10));
}

#[test]
fn unknown_buyer_evicts_buy_order() {
    let (mut broker, mut exchange) = setup(1000, 10);
    broker.place_new_order(order("nobody", OrderType::Buy, "AAPL", 100, 1));
    broker.place_new_order(order("b", OrderType::Sell, "AAPL", 100, 1));
    exchange.match_orders(&mut broker);
    assert!(exchange.trades.is_empty());
    assert!(!broker.has_order(0));
    assert!(broker.has_order(1));
}

#[test]
fn partial_fill_leaves_residual_buy() {
    let (mut broker, mut exchange) = setup(1000, 4);
    broker.place_new_order(order("a", OrderType::Buy, "AAPL", 100, 10));
    broker.place_new_order(order("b", OrderType::Sell, "AAPL", 100, 4));
    exchange.match_orders(&mut broker);
    assert_eq!(exchange.trades.len(), 1);
    assert_eq!(exchange.trades[0].quantity, 4);
    assert!(!broker.has_order(1));
    assert!(broker.has_order(0));
    let rest = find(&broker, 0).unwrap();
    assert_eq!(rest.quantity, 6);
    assert_eq!(rest.order_type, OrderType::Buy);
    assert_eq!(rest.price, 100);
    assert_eq!(broker.get_open_orders().len(), 1);
    assert_eq!(broker.get_balance("a"), Some(600));
    assert_eq!(broker.get_balance("b"), Some(400));
    assert_eq!(exchange.get_asset_balance(&"a".to_owned(), "AAPL"), Some(4));
    assert_eq!(exchange.get_asset_balance(&"b".to_owned(), "AAPL"), Some(0));
}

#[test]
fn partial_fill_leaves_residual_sell() {
    let (mut broker, mut exchange) = setup(1000, 10);
    broker.place_new_order(order("a", OrderType::Buy, "AAPL", 50, 3));
    broker.place_new_order(order("b", OrderType::Sell, "AAPL", 40, 10));
    exchange.match_orders(&mut broker);
    assert_eq!(exchange.trades.len(), 1);
    assert_eq!(exchange.trades[0].price, 50);
    assert_eq!(exchange.trades[0].quantity, 3);
    assert!(!broker.has_order(0));
    let rest = find(&broker, 1).unwrap();
    assert_eq!(rest.quantity, 7);
    assert_eq!(rest.price, 40);
    assert_eq!(rest.order_type, OrderType::Sell);
    assert_eq!(broker.get_balance("a"), Some(850));
    assert_eq!(broker.get_balance("b"), Some(150));
}

#[test]
fn no_cross_leaves_everything_open() {
    let (mut broker, mut exchange) = setup(1000, 10);
    broker.place_new_order(order("a", OrderType::Buy, "AAPL", 99, 10));
    broker.place_new_order(order("b", OrderType::Sell, "AAPL", 100, 10));
    exchange.match_orders(&mut broker);
    assert!(exchange.trades.is_empty());
    assert!(broker.has_order(0));
    assert!(broker.has_order(1));
    assert_eq!(broker.get_balance("a"), Some(1000));
}

#[test]
fn pass_without_orders_keeps_trade_log() {
    let (mut broker, mut exchange) = setup(1000, 10);
    broker.place_new_order(order("a", OrderType::Buy, "AAPL", 100, 10));
    broker.place_new_order(order("b", OrderType::Sell, "AAPL", 100, 10));
    exchange.match_orders(&mut broker);
    let before = exchange.trades.clone();
    assert!(broker.get_open_orders().is_empty());
    exchange.match_orders(&mut broker);
    assert_eq!(exchange.trades, before);
    assert_eq!(broker.get_balance("a"), Some(0));
}

#[test]
fn seller_must_hold_whole_sell_quantity() {
    let (mut broker, mut exchange) = setup(1000, 5);
    broker.place_new_order(order("a", OrderType::Buy, "AAPL", 100, 5));
    broker.place_new_order(order("b", OrderType::Sell, "AAPL", 100, 6));
    exchange.match_orders(&mut broker);
    assert!(exchange.trades.is_empty());
    assert!(broker.has_order(0));
    assert!(!broker.has_order(1));
}

#[test]
fn seller_without_holding_is_evicted() {
    let (mut broker, mut exchange) = setup(1000, 10);
    broker.place_new_order(order("a", OrderType::Buy, "AAPL", 100, 1));
    broker.place_new_order(order("a", OrderType::Sell, "AAPL", 100, 1));
    exchange.match_orders(&mut broker);
    assert!(exchange.trades.is_empty());
    assert!(broker.has_order(0));
    assert!(!broker.has_order(1));
}

#[test]
fn symbol_mismatch_halts_pass() {
    let (mut broker, mut exchange) = setup(1000, 10);
    broker.place_new_order(order("a", OrderType::Buy, "MSFT", 100, 1));
    broker.place_new_order(order("b", OrderType::Sell, "AAPL", 100, 1));
    exchange.match_orders(&mut broker);
    assert!(exchange.trades.is_empty());
    assert!(broker.has_order(0));
    assert!(broker.has_order(1));
}

#[test]
fn least_aggressive_buy_pairs_with_most_aggressive_sell() {
    let (mut broker, mut exchange) = setup(10000, 10);
    broker.place_new_order(order("a", OrderType::Buy, "AAPL", 120, 1));
    broker.place_new_order(order("a", OrderType::Buy, "AAPL", 110, 1));
    broker.place_new_order(order("b", OrderType::Sell, "AAPL", 90, 1));
    broker.place_new_order(order("b", OrderType::Sell, "AAPL", 100, 1));
    exchange.match_orders(&mut broker);
    assert_eq!(exchange.trades.len(), 2);
    assert_eq!(exchange.trades[0].buy_order_id, 1);
    assert_eq!(exchange.trades[0].sell_order_id, 3);
    assert_eq!(exchange.trades[0].price, 110);
    assert_eq!(exchange.trades[1].buy_order_id, 0);
    assert_eq!(exchange.trades[1].sell_order_id, 2);
    assert_eq!(exchange.trades[1].price, 120);
    assert_eq!(broker.get_balance("a"), Some(10000 - 230));
    assert_eq!(broker.get_balance("b"), Some(230));
}

#[test]
fn pass_stops_at_first_non_crossing_pair() {
    let (mut broker, mut exchange) = setup(10000, 10);
    broker.place_new_order(order("a", OrderType::Buy, "AAPL", 50, 1));
    broker.place_new_order(order("a", OrderType::Buy, "AAPL", 200, 1));
    broker.place_new_order(order("b", OrderType::Sell, "AAPL", 100, 1));
    exchange.match_orders(&mut broker);
    assert!(exchange.trades.is_empty());
    assert_eq!(broker.get_open_orders().len(), 3);
}

#[test]
fn settlement_out_of_range_changes_nothing() {
    let (mut broker, mut exchange) = setup(1000, 10);
    broker.update_balance("b", i32::MAX - 5);
    broker.place_new_order(order("a", OrderType::Buy, "AAPL", 100, 1));
    broker.place_new_order(order("b", OrderType::Sell, "AAPL", 100, 1));
    exchange.match_orders(&mut broker);
    assert!(exchange.trades.is_empty());
    assert!(broker.has_order(0));
    assert!(broker.has_order(1));
    assert_eq!(broker.get_balance("a"), Some(1000));
    assert_eq!(broker.get_balance("b"), Some(i32::MAX - 5));
}

#[test]
fn trade_queries() {
    let (mut broker, mut exchange) = setup(10000, 10);
    exchange.update_asset_balance("MSFT".to_owned(), &"b".to_owned(), 10);
    assert_eq!(exchange.get_asset_price("AAPL"), None);
    broker.place_new_order(order("a", OrderType::Buy, "AAPL", 100, 2));
    broker.place_new_order(order("b", OrderType::Sell, "AAPL", 100, 2));
    exchange.match_orders(&mut broker);
    broker.place_new_order(order("a", OrderType::Buy, "MSFT", 30, 1));
    broker.place_new_order(order("b", OrderType::Sell, "MSFT", 30, 1));
    exchange.match_orders(&mut broker);
    broker.place_new_order(order("a", OrderType::Buy, "AAPL", 105, 1));
    broker.place_new_order(order("b", OrderType::Sell, "AAPL", 101, 1));
    exchange.match_orders(&mut broker);
    assert_eq!(exchange.trades.len(), 3);
    assert_eq!(exchange.get_asset_price("AAPL"), Some(105));
    assert_eq!(exchange.get_asset_price("MSFT"), Some(30));
    assert_eq!(exchange.get_asset_price("TSLA"), None);
    let aapl = exchange.get_asset_trades("AAPL");
    assert_eq!(aapl.len(), 2);
    assert_eq!(aapl[0].price, 100);
    assert_eq!(aapl[1].price, 105);
    assert!(exchange.get_asset_trades("TSLA").is_empty());
    let for_three = exchange.find_trades_for_order(3);
    assert_eq!(for_three.len(), 1);
    assert_eq!(for_three[0].symbol, "MSFT");
    assert_eq!(exchange.find_trades_for_order(4).len(), 1);
    assert_eq!(exchange.find_trades_for_order(5).len(), 1);
    assert!(exchange.find_trades_for_order(9).is_empty());
}

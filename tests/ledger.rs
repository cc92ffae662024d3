use exchange_core::broker::Broker;
use exchange_core::exchange::Exchange;
use exchange_core::order::{Order, OrderType};

fn order(user: &str, side: OrderType, price: i32, quantity: i32) -> Order {
    Order {
        id: 42,
        user_id: user.to_owned(),
        order_type: side,
        symbol: "AAPL".to_owned(),
        price,
        quantity,
    }
}

#[test]
fn new_user_starts_at_zero() {
    let mut broker = Broker::new();
    let exchange = Exchange::new();
    assert_eq!(broker.get_balance("u"), None);
    broker.add_user("u".to_owned());
    assert_eq!(broker.get_balance("u"), Some(0));
    assert_eq!(exchange.get_asset_balance(&"u".to_owned(), "AAPL"), None);
}

#[test]
fn re_registering_resets_balance() {
    let mut broker = Broker::new();
    broker.add_user("u".to_owned());
    broker.update_balance("u", 70);
    assert_eq!(broker.get_balance("u"), Some(70));
    broker.add_user("u".to_owned());
    assert_eq!(broker.get_balance("u"), Some(0));
    assert_eq!(broker.users.len(), 1);
}

#[test]
fn update_balance_adds_delta_or_ignores_unknown_user() {
    let mut broker = Broker::new();
    broker.add_user("u".to_owned());
    broker.update_balance("u", 50);
    broker.update_balance("u", -80);
    assert_eq!(broker.get_balance("u"), Some(-30));
    broker.update_balance("v", 10);
    assert_eq!(broker.get_balance("v"), None);
}

#[test]
fn holdings_of_lists_one_user() {
    let mut exchange = Exchange::new();
    let u = "u".to_owned();
    let v = "v".to_owned();
    exchange.update_asset_balance("AAPL".to_owned(), &u, 3);
    exchange.update_asset_balance("AAPL".to_owned(), &v, 4);
    exchange.update_asset_balance("MSFT".to_owned(), &u, 5);
    let held = exchange.holdings_of(&u);
    assert_eq!(held.len(), 2);
    assert_eq!((held[0].symbol.as_str(), held[0].quantity), ("AAPL", 3));
    assert_eq!((held[1].symbol.as_str(), held[1].quantity), ("MSFT", 5));
    assert!(exchange.holdings_of(&"w".to_owned()).is_empty());
}

#[test]
fn asset_balance_is_created_on_first_update() {
    let mut exchange = Exchange::new();
    let u = "u".to_owned();
    exchange.update_asset_balance("AAPL".to_owned(), &u, -3);
    assert_eq!(exchange.get_asset_balance(&u, "AAPL"), Some(-3));
    exchange.update_asset_balance("AAPL".to_owned(), &u, 5);
    assert_eq!(exchange.get_asset_balance(&u, "AAPL"), Some(2));
    assert_eq!(exchange.get_asset_balance(&u, "MSFT"), None);
    assert_eq!(exchange.get_asset_balance(&"v".to_owned(), "AAPL"), None);
}

#[test]
fn order_ids_increase_and_are_not_reused() {
    let mut broker = Broker::new();
    let a = broker.place_new_order(order("u", OrderType::Buy, 1, 1));
    let b = broker.place_new_order(order("u", OrderType::Sell, 1, 1));
    broker.cancel_order(b);
    let c = broker.place_new_order(order("u", OrderType::Buy, 1, 1));
    assert_eq!((a, b, c), (0, 1, 2));
    assert!(broker.has_order(0));
    assert!(!broker.has_order(1));
    assert!(broker.has_order(2));
    assert!(!broker.has_order(42));
}

#[test]
fn cancel_missing_order_is_no_op() {
    let mut broker = Broker::new();
    broker.place_new_order(order("u", OrderType::Buy, 5, 1));
    let before = broker.get_open_orders();
    broker.cancel_order(7);
    assert_eq!(broker.get_open_orders(), before);
    broker.cancel_order(0);
    assert!(!broker.has_order(0));
    assert!(broker.get_open_orders().is_empty());
}

#[test]
fn place_order_replaces_same_id() {
    let mut broker = Broker::new();
    let id = broker.place_new_order(order("u", OrderType::Buy, 5, 1));
    let mut again = order("v", OrderType::Sell, 6, 2);
    again.id = id;
    broker.place_order(again);
    let open = broker.get_open_orders();
    assert_eq!(open.len(), 1);
    assert_eq!(open[0].id, id);
    assert_eq!(open[0].user_id, "v");
    assert_eq!(open[0].quantity, 2);
}

#[test]
fn new_order_never_takes_an_open_id() {
    let mut broker = Broker::new();
    let first = broker.place_new_order(order("u", OrderType::Buy, 5, 1));
    let mut residual = order("u", OrderType::Buy, 5, 1);
    residual.id = first;
    broker.place_order(residual);
    assert_eq!(broker.next_order_id(), 1);
    let second = broker.place_new_order(order("v", OrderType::Sell, 6, 2));
    assert_eq!(second, 1);
    assert!(broker.has_order(first));
    assert!(broker.has_order(second));
    assert_eq!(broker.get_open_orders().len(), 2);
    assert_eq!(broker.next_order_id(), 2);
}

#[test]
fn placed_order_keeps_its_fields() {
    let mut broker = Broker::new();
    let id = broker.place_new_order(order("u", OrderType::Sell, 17, 3));
    let open = broker.get_open_orders();
    assert_eq!(
        open,
        vec![Order {
            id,
            user_id: "u".to_owned(),
            order_type: OrderType::Sell,
            symbol: "AAPL".to_owned(),
            price: 17,
            quantity: 3,
        }]
    );
}

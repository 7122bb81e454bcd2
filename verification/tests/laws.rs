use orderbook::binary64::{price_of, Binary64};
use orderbook::book::Orderbook;
use orderbook::order::{Order, Price, Side};
use orderbook::session::{respond, Action, Incoming};
use orderbook::side::OrderBookSide;

fn num(x: f64) -> Binary64 {
    Binary64::from_bits(x.to_bits())
}

fn key(x: f64) -> Price {
    price_of(num(x))
}

fn order(id: u32, price: f64, amount: f64, side: Side) -> Order {
    Order::new(id, num(price), num(amount), side)
}

fn book(orders: &[(u32, f64, f64, Side)]) -> Orderbook {
    let mut ob = Orderbook::new();
    for &(id, price, amount, side) in orders {
        ob.insert_order(order(id, price, amount, side));
    }
    ob
}

fn contents(side: &OrderBookSide) -> Vec<(Price, Vec<Order>)> {
    side.prices().into_iter().map(|p| (p, side.level_orders(p).unwrap())).collect()
}

fn total(side: &OrderBookSide) -> f64 {
    let mut sum = 0.0;
    for (_, orders) in contents(side) {
        for order in orders {
            sum += f64::from_bits(order.amount.bits);
        }
    }
    sum
}

fn crossed(ob: &Orderbook) -> bool {
    match (ob.bids().prices().last(), ob.asks().prices().first()) {
        (Some(bid), Some(ask)) => bid >= ask,
        _ => false,
    }
}

#[test]
fn whole_amounts_are_conserved() {
    let mut ob = book(&[(1, 9.0, 2.0, Side::SELL), (2, 9.5, 3.0, Side::SELL)]);
    let before = total(ob.asks());
    let fills = ob.insert_order(order(3, 9.5, 4.0, Side::BUY));
    let traded: f64 = fills.iter().map(|f| f64::from_bits(f.amount.bits)).sum();
    assert_eq!(traded, 4.0);
    assert_eq!(total(ob.asks()) + traded, before);
    assert_eq!(total(ob.bids()), 0.0);
}

#[test]
fn ids_without_a_trade_stay() {
    let mut ob = book(&[
        (1, 9.0, 2.0, Side::SELL),
        (2, 9.5, 3.0, Side::SELL),
        (3, 8.0, 1.0, Side::BUY),
    ]);
    ob.insert_order(order(4, 9.0, 2.0, Side::BUY));
    assert!(!ob.contains_order(1));
    assert!(ob.contains_order(2));
    assert!(ob.contains_order(3));
    assert!(!ob.contains_order(4));
}

#[test]
fn the_index_counts_the_orders() {
    let ob = book(&[
        (1, 9.0, 2.0, Side::SELL),
        (2, 9.5, 3.0, Side::SELL),
        (3, 8.0, 1.0, Side::BUY),
        (4, 9.0, 2.5, Side::BUY),
    ]);
    let orders: usize = contents(ob.bids()).iter().map(|l| l.1.len()).sum::<usize>()
        + contents(ob.asks()).iter().map(|l| l.1.len()).sum::<usize>();
    assert_eq!(ob.order_count(), 3);
    assert_eq!(orders, 3);
}

#[test]
fn buying_does_not_cross_the_book() {
    let mut ob = book(&[(1, 9.0, 2.0, Side::SELL), (2, 9.5, 3.0, Side::SELL)]);
    ob.insert_order(order(3, 9.25, 4.0, Side::BUY));
    assert_eq!(ob.bids().prices(), vec![key(9.25)]);
    assert_eq!(ob.asks().prices(), vec![key(9.5)]);
    assert!(!crossed(&ob));
    ob.cancel_order(2);
    assert!(!crossed(&ob));
}

#[test]
fn selling_does_not_cross_the_book() {
    let bids = [(1, 5.0, 1.0, Side::BUY), (2, 12.0, 1.0, Side::BUY), (3, 10.0, 1.0, Side::BUY)];
    let mut ob = book(&bids);
    ob.insert_order(order(4, 8.0, 1.5, Side::SELL));
    assert_eq!(ob.bids().prices(), vec![key(5.0), key(10.0)]);
    assert_eq!(ob.asks().level_count(), 0);
    assert!(!crossed(&ob));
    let mut ob = book(&bids);
    ob.insert_order(order(4, 8.0, 2.5, Side::SELL));
    assert_eq!(ob.bids().prices(), vec![key(5.0)]);
    assert_eq!(ob.asks().prices(), vec![key(8.0)]);
    assert!(!crossed(&ob));
}

#[test]
fn cancels_may_come_in_either_order() {
    let orders = [
        (1, 9.0, 2.0, Side::BUY),
        (2, 9.5, 3.0, Side::BUY),
        (3, 9.5, 1.0, Side::BUY),
        (4, 8.0, 1.0, Side::BUY),
    ];
    for a in 1..5 {
        for b in 1..5 {
            let (mut x, mut y) = (book(&orders), book(&orders));
            x.cancel_order(a);
            x.cancel_order(b);
            y.cancel_order(b);
            y.cancel_order(a);
            assert_eq!(contents(x.bids()), contents(y.bids()));
            assert_eq!(x.bids().best_price(), y.bids().best_price());
            assert_eq!(x.order_count(), y.order_count());
        }
    }
}

#[test]
fn the_own_side_stays_in_front() {
    let mut ob = book(&[(1, 9.0, 2.0, Side::BUY), (2, 9.0, 3.0, Side::BUY)]);
    ob.insert_order(order(3, 9.0, 4.0, Side::BUY));
    assert_eq!(
        ob.bids().level_orders(key(9.0)).unwrap(),
        vec![
            order(1, 9.0, 2.0, Side::BUY),
            order(2, 9.0, 3.0, Side::BUY),
            order(3, 9.0, 4.0, Side::BUY),
        ]
    );
}

#[test]
fn finite_amounts_always_settle() {
    let ob = book(&[(1, 9.0, 2.0, Side::SELL), (2, 8.0, 3.0, Side::BUY)]);
    for amount in [1.0, f64::MAX, f64::INFINITY, f64::NAN] {
        assert!(ob.settles(&order(3, 10.0, amount, Side::BUY)));
        assert!(ob.settles(&order(3, 5.0, amount, Side::SELL)));
    }
}

#[test]
fn a_side_can_be_used_alone() {
    let mut side = OrderBookSide::new();
    let a = side.insert_node(order(1, 3.0, 1.0, Side::SELL));
    let b = side.insert_node(order(2, 3.0, 2.0, Side::SELL));
    side.remove_node(key(4.0), a);
    assert_eq!(side.level_orders(key(3.0)).unwrap().len(), 2);
    side.remove_node(key(3.0), a);
    assert_eq!(side.level_orders(key(3.0)).unwrap(), vec![order(2, 3.0, 2.0, Side::SELL)]);
    side.remove_node(key(3.0), b);
    assert_eq!(side.level_count(), 0);
    assert_eq!(side.best_price(), None);
}

#[test]
fn a_connection_answers_until_it_ends() {
    let row = [Incoming::Malformed, Incoming::Other, Incoming::Close, Incoming::Malformed];
    let mut answers = Vec::new();
    for incoming in &row {
        let (action, go_on) = respond(incoming);
        answers.push(action);
        if !go_on {
            break;
        }
    }
    assert_eq!(
        answers,
        vec![Action::ReportMalformed, Action::AnnounceIgnored, Action::AnnounceClose]
    );
}

#[test]
fn an_order_that_was_cut_stands_first() {
    let mut ob = book(&[
        (1, 9.0, 1.0, Side::SELL),
        (2, 9.5, 2.0, Side::SELL),
        (3, 9.5, 2.0, Side::SELL),
    ]);
    ob.insert_order(order(4, 9.5, 1.5, Side::BUY));
    assert_eq!(ob.asks().best_price(), Some(key(9.5)));
    let queue = ob.asks().level_orders(key(9.5)).unwrap();
    assert_eq!(queue, vec![order(2, 9.5, 1.5, Side::SELL), order(3, 9.5, 2.0, Side::SELL)]);
}

#[test]
fn the_highest_bids_trade_first() {
    let mut ob = book(&[
        (1, 5.0, 1.0, Side::BUY),
        (2, 7.0, 1.0, Side::BUY),
        (3, 10.0, 1.0, Side::BUY),
    ]);
    let fills = ob.insert_order(order(4, 5.0, 3.0, Side::SELL));
    let prices: Vec<Price> = fills.iter().map(|f| price_of(f.price)).collect();
    assert_eq!(prices, vec![key(10.0), key(7.0), key(5.0)]);
}

#[test]
fn the_best_price_of_a_side_follows_what_leaves() {
    let mut bids = OrderBookSide::new();
    let mut asks = OrderBookSide::new();
    let mut top_bid = 0;
    let mut top_ask = 0;
    for (id, price) in [(1, 8.0), (2, 9.0), (3, 10.0)] {
        let bid = bids.insert_node(order(id, price, 1.0, Side::BUY));
        let ask = asks.insert_node(order(id, price, 1.0, Side::SELL));
        if id == 3 {
            top_bid = bid;
        }
        if id == 1 {
            top_ask = ask;
        }
    }
    assert_eq!(bids.best_price(), Some(key(10.0)));
    assert_eq!(asks.best_price(), Some(key(8.0)));
    bids.remove_node(key(10.0), top_bid);
    asks.remove_node(key(8.0), top_ask);
    assert_eq!(bids.best_price(), Some(key(9.0)));
    assert_eq!(asks.best_price(), Some(key(9.0)));
}

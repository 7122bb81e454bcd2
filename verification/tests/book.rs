use orderbook::binary64::{price_of, Binary64};
use orderbook::book::Orderbook;
use orderbook::matching::Fill;
use orderbook::order::{Order, Price, Side};

fn num(x: f64) -> Binary64 {
    Binary64::from_bits(x.to_bits())
}

fn key(x: f64) -> Price {
    price_of(num(x))
}

fn order(id: u32, price: f64, amount: f64, side: Side) -> Order {
    Order::new(id, num(price), num(amount), side)
}

fn amount_of(order: &Order) -> f64 {
    f64::from_bits(order.amount.bits)
}

fn setup_book() -> Orderbook {
    Orderbook::new()
}

fn fill(side: Side, taker_id: u32, maker_id: u32, price: f64, amount: f64) -> Fill {
    Fill { side, taker_id, maker_id, price: num(price), amount: num(amount) }
}

#[test]
fn test_insert_limit_order_no_match() {
    let mut ob = setup_book();
    ob.insert_order(order(1, 10.0, 5.0, Side::BUY));
    assert!(ob.bids().has_level(key(10.0)));
    assert_eq!(ob.order_count(), 1);
}

#[test]
fn test_simple_match_buy_consumes_sell() {
    let mut ob = setup_book();
    ob.insert_order(order(1, 9.5, 5.0, Side::SELL));
    ob.insert_order(order(2, 10.0, 5.0, Side::BUY));
    assert!(ob.bids().level_count() == 0);
    assert!(ob.asks().level_count() == 0);
    assert!(ob.order_count() == 0);
}

#[test]
fn test_partial_match() {
    let mut ob = setup_book();
    ob.insert_order(order(1, 10.0, 10.0, Side::SELL));
    ob.insert_order(order(2, 10.0, 4.0, Side::BUY));
    let remaining = amount_of(&ob.asks().level_orders(key(10.0)).unwrap()[0]);
    assert_eq!(remaining, 6.0);
}

#[test]
fn test_cancel_order() {
    let mut ob = setup_book();
    ob.insert_order(order(1, 12.0, 3.0, Side::SELL));
    ob.cancel_order(1);
    assert!(!ob.contains_order(1));
    assert!(ob.asks().level_orders(key(12.0)).is_none());
}

#[test]
fn test_best_price_tracking() {
    let mut ob = setup_book();
    ob.insert_order(order(1, 9.0, 1.0, Side::SELL));
    ob.insert_order(order(2, 8.0, 1.0, Side::SELL));
    assert_eq!(ob.asks().best_price(), Some(key(8.0)));
    ob.cancel_order(2);
    assert_eq!(ob.asks().best_price(), Some(key(9.0)));
}

#[test]
fn test_multi_level_match_buy_sweeps_sell_levels() {
    let mut ob = setup_book();
    ob.insert_order(order(1, 9.0, 2.0, Side::SELL));
    ob.insert_order(order(2, 9.5, 3.0, Side::SELL));
    ob.insert_order(order(3, 10.0, 5.0, Side::SELL));
    ob.insert_order(order(10, 11.0, 10.0, Side::BUY));
    assert!(ob.asks().level_count() == 0);
    assert!(ob.order_count() == 0);
}

#[test]
fn test_multi_level_match_partial_sweep() {
    let mut ob = setup_book();
    ob.insert_order(order(1, 9.0, 2.0, Side::SELL));
    ob.insert_order(order(2, 9.5, 3.0, Side::SELL));
    ob.insert_order(order(3, 10.0, 5.0, Side::SELL));
    ob.insert_order(order(11, 11.0, 6.0, Side::BUY));
    let remaining = amount_of(&ob.asks().level_orders(key(10.0)).unwrap()[0]);
    assert_eq!(remaining, 4.0);
    assert_eq!(ob.asks().level_count(), 1);
}

#[test]
fn test_match_leaves_book_state_correct() {
    let mut ob = setup_book();
    ob.insert_order(order(1, 10.0, 4.0, Side::SELL));
    ob.insert_order(order(2, 10.0, 6.0, Side::SELL));
    ob.insert_order(order(3, 11.0, 7.0, Side::BUY));
    let remaining = amount_of(&ob.asks().level_orders(key(10.0)).unwrap()[0]);
    assert_eq!(remaining, 3.0);
    assert!(ob.contains_order(2));
    assert!(!ob.contains_order(1));
}

#[test]
fn a_new_book_is_vacant() {
    let ob = setup_book();
    assert_eq!(ob.order_count(), 0);
    assert_eq!(ob.bids().level_count(), 0);
    assert_eq!(ob.asks().best_price(), None);
    assert_eq!(ob.bids().best_price(), None);
}

#[test]
fn trades_are_returned_in_turn() {
    let mut ob = setup_book();
    assert!(ob.insert_order(order(1, 9.5, 2.0, Side::SELL)).is_empty());
    assert!(ob.insert_order(order(2, 9.0, 3.0, Side::SELL)).is_empty());
    assert!(ob.insert_order(order(3, 9.5, 4.0, Side::SELL)).is_empty());
    assert!(ob.insert_order(order(4, 12.0, 1.0, Side::SELL)).is_empty());
    let fills = ob.insert_order(order(5, 10.0, 8.0, Side::BUY));
    assert_eq!(
        fills,
        vec![
            fill(Side::BUY, 5, 2, 9.0, 3.0),
            fill(Side::BUY, 5, 1, 9.5, 2.0),
            fill(Side::BUY, 5, 3, 9.5, 3.0),
        ]
    );
    assert_eq!(ob.asks().prices(), vec![key(9.5), key(12.0)]);
    assert_eq!(ob.asks().level_orders(key(9.5)).unwrap(), vec![order(3, 9.5, 1.0, Side::SELL)]);
    assert_eq!(ob.bids().level_count(), 0);
}

#[test]
fn what_is_left_rests_at_its_limit() {
    let mut ob = setup_book();
    ob.insert_order(order(1, 10.0, 4.0, Side::BUY));
    let fills = ob.insert_order(order(2, 9.0, 6.5, Side::SELL));
    assert_eq!(fills, vec![fill(Side::SELL, 2, 1, 10.0, 4.0)]);
    assert_eq!(ob.asks().level_orders(key(9.0)).unwrap(), vec![order(2, 9.0, 2.5, Side::SELL)]);
    assert_eq!(ob.bids().best_price(), None);
    assert!(ob.contains_order(2));
}

#[test]
fn orders_at_one_price_queue_up() {
    let mut ob = setup_book();
    for id in 1..6 {
        ob.insert_order(order(id, 7.0, id as f64, Side::BUY));
    }
    assert!(ob.cancel_order(3));
    assert!(ob.cancel_order(1));
    assert!(ob.cancel_order(5));
    let ids: Vec<u32> =
        ob.bids().level_orders(key(7.0)).unwrap().iter().map(|o| o.id).collect();
    assert_eq!(ids, vec![2, 4]);
    ob.insert_order(order(9, 7.0, 1.0, Side::BUY));
    let ids: Vec<u32> =
        ob.bids().level_orders(key(7.0)).unwrap().iter().map(|o| o.id).collect();
    assert_eq!(ids, vec![2, 4, 9]);
}

#[test]
fn cancelling_an_unknown_id_changes_nothing() {
    let mut ob = setup_book();
    ob.insert_order(order(1, 12.0, 3.0, Side::SELL));
    assert!(!ob.cancel_order(2));
    assert_eq!(ob.order_count(), 1);
    assert!(ob.cancel_order(1));
    assert!(!ob.cancel_order(1));
    assert_eq!(ob.order_count(), 0);
}

#[test]
fn a_cancelled_order_leaves_the_asks_as_they_were() {
    let mut ob = setup_book();
    ob.insert_order(order(1, 9.0, 1.0, Side::SELL));
    ob.insert_order(order(2, 9.5, 1.0, Side::SELL));
    ob.insert_order(order(3, 8.0, 1.0, Side::SELL));
    ob.cancel_order(3);
    assert_eq!(ob.asks().prices(), vec![key(9.0), key(9.5)]);
    assert_eq!(ob.asks().best_price(), Some(key(9.0)));
    assert!(!ob.contains_order(3));
}

#[test]
fn a_cancelled_order_leaves_the_bids_as_they_were() {
    let mut ob = setup_book();
    ob.insert_order(order(1, 9.0, 1.0, Side::BUY));
    ob.insert_order(order(2, 9.5, 1.0, Side::BUY));
    ob.insert_order(order(3, 11.0, 1.0, Side::BUY));
    ob.cancel_order(3);
    assert_eq!(ob.bids().prices(), vec![key(9.0), key(9.5)]);
    assert_eq!(ob.bids().best_price(), Some(key(9.5)));
    assert!(!ob.contains_order(3));
}

#[test]
fn the_best_bid_is_the_highest_new_one() {
    let mut ob = setup_book();
    ob.insert_order(order(1, 5.0, 1.0, Side::BUY));
    ob.insert_order(order(2, 10.0, 1.0, Side::BUY));
    ob.insert_order(order(3, 7.0, 1.0, Side::BUY));
    assert_eq!(ob.bids().best_price(), Some(key(10.0)));
}

#[test]
fn the_highest_bid_left_follows_the_best_one_that_leaves() {
    let mut ob = setup_book();
    ob.insert_order(order(1, 10.0, 1.0, Side::BUY));
    ob.insert_order(order(2, 9.0, 1.0, Side::BUY));
    ob.insert_order(order(3, 8.0, 1.0, Side::BUY));
    ob.cancel_order(1);
    assert_eq!(ob.bids().best_price(), Some(key(9.0)));
    ob.cancel_order(2);
    assert_eq!(ob.bids().best_price(), Some(key(8.0)));
    ob.cancel_order(3);
    assert_eq!(ob.bids().best_price(), None);
}

#[test]
fn the_best_bid_stays_when_another_one_leaves() {
    let mut ob = setup_book();
    ob.insert_order(order(1, 10.0, 1.0, Side::BUY));
    ob.insert_order(order(2, 9.0, 1.0, Side::BUY));
    ob.insert_order(order(3, 10.0, 1.0, Side::BUY));
    ob.cancel_order(1);
    assert_eq!(ob.bids().best_price(), Some(key(10.0)));
    ob.cancel_order(2);
    assert_eq!(ob.bids().best_price(), Some(key(10.0)));
}

#[test]
fn sellers_take_the_bids_from_the_highest_down() {
    let mut ob = setup_book();
    ob.insert_order(order(1, 10.0, 1.0, Side::BUY));
    ob.insert_order(order(2, 9.0, 1.0, Side::BUY));
    ob.insert_order(order(3, 8.0, 1.0, Side::BUY));
    let fills = ob.insert_order(order(4, 9.0, 2.0, Side::SELL));
    assert_eq!(
        fills,
        vec![fill(Side::SELL, 4, 1, 10.0, 1.0), fill(Side::SELL, 4, 2, 9.0, 1.0)]
    );
    assert_eq!(ob.bids().prices(), vec![key(8.0)]);
    assert_eq!(ob.bids().level_orders(key(8.0)).unwrap(), vec![order(3, 8.0, 1.0, Side::BUY)]);
    assert_eq!(ob.bids().best_price(), Some(key(8.0)));
    assert_eq!(ob.asks().level_count(), 0);
    assert_eq!(ob.order_count(), 1);
    assert!(ob.contains_order(3));
}

#[test]
fn amounts_that_are_not_positive_do_nothing() {
    let mut ob = setup_book();
    ob.insert_order(order(1, 9.0, 1.0, Side::SELL));
    for amount in [0.0, -0.0, -1.5, f64::NEG_INFINITY] {
        assert!(ob.settles(&order(2, 10.0, amount, Side::BUY)));
        assert!(ob.insert_order(order(2, 10.0, amount, Side::BUY)).is_empty());
    }
    assert_eq!(ob.order_count(), 1);
    assert_eq!(ob.bids().level_count(), 0);
}

#[test]
fn an_amount_that_is_no_number_takes_all_and_does_not_rest() {
    let mut ob = setup_book();
    ob.insert_order(order(1, 9.0, 1.0, Side::SELL));
    ob.insert_order(order(2, 9.5, 2.0, Side::SELL));
    ob.insert_order(order(3, 11.0, 4.0, Side::SELL));
    let taker = order(4, 10.0, f64::NAN, Side::BUY);
    assert!(ob.settles(&taker));
    let fills = ob.insert_order(taker);
    assert_eq!(fills, vec![fill(Side::BUY, 4, 1, 9.0, 1.0), fill(Side::BUY, 4, 2, 9.5, 2.0)]);
    assert_eq!(ob.order_count(), 1);
    assert_eq!(ob.bids().level_count(), 0);
}

#[test]
fn an_infinite_amount_rests_and_stays_infinite() {
    let mut ob = setup_book();
    ob.insert_order(order(1, 9.0, 1.0, Side::SELL));
    ob.insert_order(order(2, 10.0, f64::INFINITY, Side::BUY));
    assert_eq!(ob.asks().level_count(), 0);
    let fills = ob.insert_order(order(3, 10.0, 4.0, Side::SELL));
    assert_eq!(fills, vec![fill(Side::SELL, 3, 2, 10.0, 4.0)]);
    let rest = ob.bids().level_orders(key(10.0)).unwrap();
    assert_eq!(rest, vec![order(2, 10.0, f64::INFINITY, Side::BUY)]);
}

#[test]
fn two_boundless_amounts_do_not_settle() {
    let mut ob = setup_book();
    ob.insert_order(order(1, 9.0, f64::INFINITY, Side::SELL));
    assert!(!ob.settles(&order(2, 9.0, f64::INFINITY, Side::BUY)));
    assert!(!ob.settles(&order(2, 9.0, f64::NAN, Side::BUY)));
    assert!(ob.settles(&order(2, 8.0, f64::INFINITY, Side::BUY)));
    assert!(ob.settles(&order(2, 9.0, 1e300, Side::BUY)));
}

#[test]
fn sellers_come_to_every_bid_within_their_limit() {
    let mut ob = setup_book();
    ob.insert_order(order(1, 5.0, 1.0, Side::BUY));
    ob.insert_order(order(2, 7.0, f64::INFINITY, Side::BUY));
    ob.insert_order(order(3, 10.0, 1.0, Side::BUY));
    assert!(ob.settles(&order(4, 8.0, f64::INFINITY, Side::SELL)));
    assert!(!ob.settles(&order(4, 7.0, f64::INFINITY, Side::SELL)));
    assert!(!ob.settles(&order(4, 6.0, f64::NAN, Side::SELL)));
    let fills = ob.insert_order(order(4, 8.0, f64::INFINITY, Side::SELL));
    assert_eq!(fills, vec![fill(Side::SELL, 4, 3, 10.0, 1.0)]);
    assert!(ob.asks().has_level(key(8.0)));
    assert_eq!(ob.bids().best_price(), Some(key(7.0)));
}

#[test]
fn an_id_leads_to_the_order_that_used_it_last() {
    let mut ob = setup_book();
    ob.insert_order(order(1, 9.0, 1.0, Side::SELL));
    ob.insert_order(order(1, 9.5, 2.0, Side::SELL));
    assert_eq!(ob.order_count(), 1);
    assert!(ob.cancel_order(1));
    assert_eq!(ob.asks().prices(), vec![key(9.0)]);
    assert!(!ob.cancel_order(1));
    ob.insert_order(order(1, 9.5, 2.0, Side::SELL));
    ob.insert_order(order(2, 9.0, 1.0, Side::BUY));
    assert!(!ob.contains_order(1));
    assert_eq!(ob.asks().prices(), vec![key(9.5)]);
}

#[test]
fn the_zeros_are_one_price_and_no_number_is_the_highest() {
    let mut ob = setup_book();
    ob.insert_order(order(1, 0.0, 1.0, Side::SELL));
    ob.insert_order(order(2, -0.0, 1.0, Side::SELL));
    assert_eq!(ob.asks().level_count(), 1);
    ob.insert_order(order(3, f64::NAN, 1.0, Side::SELL));
    ob.insert_order(order(4, f64::INFINITY, 1.0, Side::SELL));
    assert_eq!(ob.asks().prices(), vec![key(0.0), key(f64::INFINITY), key(f64::NAN)]);
    let fills = ob.insert_order(order(5, f64::NAN, 4.0, Side::BUY));
    let makers: Vec<u32> = fills.iter().map(|f| f.maker_id).collect();
    assert_eq!(makers, vec![1, 2, 4, 3]);
}

#[test]
fn a_trade_shows_the_price_its_level_was_opened_at() {
    for (opened, joined) in [(-0.0, 0.0), (0.0, -0.0)] {
        let mut ob = setup_book();
        ob.insert_order(order(1, opened, 1.0, Side::SELL));
        ob.insert_order(order(2, joined, 1.0, Side::SELL));
        assert_eq!(ob.asks().quote(key(0.0)), num(opened));
        let fills = ob.insert_order(order(3, joined, 3.0, Side::BUY));
        assert_eq!(
            fills,
            vec![fill(Side::BUY, 3, 1, opened, 1.0), fill(Side::BUY, 3, 2, opened, 1.0)]
        );
        assert_eq!(ob.bids().quote(key(0.0)), num(joined));
    }
}

#[test]
fn a_level_opened_anew_takes_the_new_price() {
    let mut ob = setup_book();
    ob.insert_order(order(1, -0.0, 1.0, Side::BUY));
    ob.insert_order(order(2, 0.0, 1.0, Side::BUY));
    assert!(ob.cancel_order(1));
    assert_eq!(ob.bids().quote(key(0.0)), num(-0.0));
    assert!(ob.cancel_order(2));
    ob.insert_order(order(3, 0.0, 1.0, Side::BUY));
    let fills = ob.insert_order(order(4, -1.0, 1.0, Side::SELL));
    assert_eq!(fills, vec![fill(Side::SELL, 4, 3, 0.0, 1.0)]);
    assert_ne!(fills, vec![fill(Side::SELL, 4, 3, -0.0, 1.0)]);
}

#[test]
fn traded_amounts_are_rounded_as_numbers_are() {
    let mut ob = setup_book();
    ob.insert_order(order(1, 9.0, 0.3, Side::SELL));
    ob.insert_order(order(2, 9.0, 0.1, Side::BUY));
    let left = amount_of(&ob.asks().level_orders(key(9.0)).unwrap()[0]);
    assert_eq!(left, 0.3 - 0.1);
    assert_ne!(left, 0.2);
}

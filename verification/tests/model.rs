use orderbook::binary64::{price_of, Binary64};
use orderbook::book::Orderbook;
use orderbook::order::{Order, Side};
use orderbook::side::OrderBookSide;
use ordered_float::OrderedFloat;
use std::collections::{BTreeMap, HashMap};

/// A resting order of the model: serial number, id, amount.
type Resting = (u64, u32, f64);

/// One side of a book in plain floating point.
#[derive(Default)]
struct ModelSide {
    levels: BTreeMap<OrderedFloat<f64>, Vec<Resting>>,
    best: Option<OrderedFloat<f64>>,
}

impl ModelSide {
    fn rest(&mut self, price: OrderedFloat<f64>, resting: Resting, buys: bool) {
        let fresh = !self.levels.contains_key(&price);
        self.levels.entry(price).or_default().push(resting);
        if fresh {
            let better = match self.best {
                None => true,
                Some(best) => {
                    if buys {
                        price > best
                    } else {
                        price < best
                    }
                }
            };
            if better {
                self.best = Some(price);
            }
        }
    }

    fn remove(&mut self, price: OrderedFloat<f64>, serial: u64, buys: bool) {
        let queue = self.levels.get_mut(&price).unwrap();
        queue.retain(|r| r.0 != serial);
        if queue.is_empty() {
            self.levels.remove(&price);
            if self.best == Some(price) {
                self.best = if buys {
                    self.levels.keys().next_back().cloned()
                } else {
                    self.levels.keys().next().cloned()
                };
            }
        }
    }
}

#[derive(Default)]
struct Model {
    bids: ModelSide,
    asks: ModelSide,
    index: HashMap<u32, (bool, OrderedFloat<f64>, u64)>,
    serial: u64,
}

impl Model {
    fn insert(&mut self, id: u32, price: f64, amount: f64, buys: bool) -> Vec<(u32, f64, f64)> {
        let price = OrderedFloat(price);
        let mut remaining = amount;
        let mut fills = Vec::new();
        loop {
            let other = if buys { &mut self.asks } else { &mut self.bids };
            let best = match other.best {
                Some(best) => best,
                None => break,
            };
            if (if buys { price < best } else { price > best }) || remaining <= 0.0 {
                break;
            }
            let first = &mut other.levels.get_mut(&best).unwrap()[0];
            let matched = remaining.min(first.2);
            first.2 -= matched;
            remaining -= matched;
            let (serial, maker, left) = *first;
            fills.push((maker, best.0, matched));
            if left <= 0.0 {
                other.remove(best, serial, !buys);
                self.index.remove(&maker);
            }
        }
        if remaining > 0.0 {
            self.serial += 1;
            let resting = (self.serial, id, remaining);
            let own = if buys { &mut self.bids } else { &mut self.asks };
            own.rest(price, resting, buys);
            self.index.insert(id, (buys, price, self.serial));
        }
        fills
    }

    fn cancel(&mut self, id: u32) -> bool {
        match self.index.remove(&id) {
            Some((buys, price, serial)) => {
                let own = if buys { &mut self.bids } else { &mut self.asks };
                own.remove(price, serial, buys);
                true
            }
            None => false,
        }
    }
}

fn num(x: f64) -> Binary64 {
    Binary64::from_bits(x.to_bits())
}

fn same_side(side: &OrderBookSide, model: &ModelSide) {
    let prices: Vec<u64> = model.levels.keys().map(|p| price_of(num(p.0))).collect();
    assert_eq!(side.prices(), prices);
    assert_eq!(side.level_count(), prices.len());
    assert_eq!(side.best_price(), model.best.map(|p| price_of(num(p.0))));
    assert_eq!(side.best_price().map(|p| side.quote(p)), model.best.map(|p| num(p.0)));
    for (price, queue) in &model.levels {
        assert_eq!(side.quote(price_of(num(price.0))), num(price.0));
        let orders = side.level_orders(price_of(num(price.0))).unwrap();
        let got: Vec<(u32, f64)> =
            orders.iter().map(|o| (o.id, f64::from_bits(o.amount.bits))).collect();
        let want: Vec<(u32, f64)> = queue.iter().map(|r| (r.1, r.2)).collect();
        assert_eq!(got, want);
    }
}

fn run(seed: u64, ids: u32, prices: &[f64]) {
    let mut state = seed;
    let mut next = || {
        state ^= state << 13;
        state ^= state >> 7;
        state ^= state << 17;
        state
    };
    let mut book = Orderbook::new();
    let mut model = Model::default();
    for step in 0..400u32 {
        if next() % 4 == 0 {
            let id = (next() % ids as u64) as u32;
            assert_eq!(book.cancel_order(id), model.cancel(id));
        } else {
            let id = if ids > 1000 { step } else { (next() % ids as u64) as u32 };
            let price = prices[(next() % prices.len() as u64) as usize];
            let amount = (next() % 50) as f64 * 0.07 - 0.1;
            let buys = next() % 2 == 0;
            let side = if buys { Side::BUY } else { Side::SELL };
            let order = Order::new(id, num(price), num(amount), side);
            assert!(book.settles(&order));
            let fills = book.insert_order(order);
            let want = model.insert(id, price, amount, buys);
            assert_eq!(fills.len(), want.len());
            for (fill, (maker, at, matched)) in fills.iter().zip(want) {
                assert_eq!(fill.side, side);
                assert_eq!(fill.taker_id, id);
                assert_eq!(fill.maker_id, maker);
                assert_eq!(fill.price, num(at));
                assert_eq!(fill.amount, num(matched));
            }
        }
        assert_eq!(book.order_count(), model.index.len());
        for id in 0..ids.min(40) {
            assert_eq!(book.contains_order(id), model.index.contains_key(&id));
        }
        same_side(book.bids(), &model.bids);
        same_side(book.asks(), &model.asks);
    }
}

fn tenths() -> Vec<f64> {
    (0..12).map(|i| i as f64 * 0.1 + 9.0).collect()
}

#[test]
fn the_book_trades_as_plain_floating_point_does() {
    for seed in 1..40 {
        run(seed * 0x9e37_79b9, 2000, &tenths());
    }
}

#[test]
fn the_book_keeps_up_when_ids_come_again() {
    for seed in 1..40 {
        run(seed * 0x51_7cc1, 12, &tenths());
    }
}

#[test]
fn levels_keep_the_sign_of_the_zero_they_were_opened_at() {
    for seed in 1..40 {
        run(seed * 0x2545_f491, 2000, &[-1.0, -0.0, 0.0, 1.0]);
    }
}

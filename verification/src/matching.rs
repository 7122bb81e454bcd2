//! How an incoming order trades with the orders that rest on the other side.
use crate::binary64::{lemma_minus, lemma_price_key, lemma_sign, price_key, price_of, Binary64};
use crate::order::{crosses, Order, OrderId, Price, Side};
use crate::side::{
    lemma_reduced_wf, lemma_removed_wf, NodeRef, OrderBookSide, SideView,
};
use std::collections::HashMap;
use vstd::prelude::*;

verus! {

/// Where an order rests.
pub type OrderMapEntry = (Side, Price, NodeRef);

/// One trade between an incoming order and a resting one.
#[derive(Clone, Copy, Debug, PartialEq, Eq, Structural)]
pub struct Fill {
    /// The side of the incoming order.
    pub side: Side,
    pub taker_id: OrderId,
    pub maker_id: OrderId,
    /// The price that the level of the resting order was opened at.
    pub price: Binary64,
    pub amount: Binary64,
}

impl Fill {
    /// The level that the trade was made at.
    pub open spec fn level(self) -> Price {
        price_key(self.price)
    }
}

/// What comes of an incoming order's trades.
#[verifier::ext_equal]
pub struct Sweep {
    /// The side that was traded with.
    pub side: SideView,
    /// Where the orders rest that can be found by their id.
    pub index: Map<OrderId, OrderMapEntry>,
    /// What is left of the incoming order.
    pub remaining: Binary64,
    pub fills: Seq<Fill>,
}

/// Whether an incoming order of which `remaining` is left goes on trading.
pub open spec fn trades(v: SideView, taker: Order, remaining: Binary64) -> bool {
    match v.best {
        Some(best) => crosses(taker.side, taker.level(), best) && !remaining.nonpositive(),
        None => false,
    }
}

/// The resting order that an incoming order trades with next.
pub open spec fn first(v: SideView) -> NodeRef {
    v.levels[v.best->0][0]
}

/// The next trade of an incoming order.
pub open spec fn next_fill(v: SideView, taker: Order, remaining: Binary64) -> Fill {
    let maker = v.orders[first(v)];
    Fill {
        side: taker.side,
        taker_id: taker.id,
        maker_id: maker.id,
        price: v.quotes[v.best->0],
        amount: remaining.lesser(maker.amount),
    }
}

/// What comes of an incoming order's trades with a side: it trades with the first order at the
/// best price, as much as both have, again and again until it is used up or the best price is
/// beyond its limit. An order that is used up leaves the side, and its id the index.
pub open spec fn sweep(
    v: SideView,
    index: Map<OrderId, OrderMapEntry>,
    taker: Order,
    remaining: Binary64,
) -> Sweep
    decreases v.orders.dom().len(),
    when v.wf()
{
    if trades(v, taker, remaining) {
        let maker = v.orders[first(v)];
        let fill = next_fill(v, taker, remaining);
        let left = maker.amount.minus(fill.amount);
        if left.nonpositive() {
            let rest = sweep(
                v.removed(v.best->0, first(v)),
                index.remove(maker.id),
                taker,
                remaining.minus(fill.amount),
            );
            Sweep { fills: seq![fill] + rest.fills, ..rest }
        } else {
            Sweep {
                side: v.reduced(first(v), left),
                index,
                remaining: remaining.minus(fill.amount),
                fills: seq![fill],
            }
        }
    } else {
        Sweep { side: v, index, remaining, fills: Seq::empty() }
    }
}

/// Every resting order has something left.
pub open spec fn solid(v: SideView) -> bool {
    forall|n: NodeRef| #[trigger] v.orders.contains_key(n) ==> v.orders[n].amount.positive()
}

/// An incoming order that is not used up before comes to the level at `price`: it is there, and
/// within the limit.
pub open spec fn reaches(v: SideView, taker: Order, price: Price) -> bool {
    v.levels.contains_key(price) && crosses(taker.side, taker.level(), price)
}

/// The trades of an incoming order come to an end. Only a boundless amount that meets another one
/// would never be settled.
pub open spec fn settles(v: SideView, taker: Order) -> bool {
    taker.amount.boundless() ==> forall|n: NodeRef| #[trigger]
        v.orders.contains_key(n) && reaches(v, taker, v.orders[n].level())
            ==> !v.orders[n].amount.infinite()
}

pub proof fn lemma_first(v: SideView)
    requires
        v.wf(),
        v.best is Some,
    ensures
        v.rests(v.best->0, first(v)),
        v.orders.contains_key(first(v)),
        v.orders[first(v)].level() == v.best->0,
        v.levels[v.best->0].index_of(first(v)) == 0,
        v.removed(v.best->0, first(v)).wf(),
        v.removed(v.best->0, first(v)).orders.dom().len() < v.orders.dom().len(),
{
    let queue = v.levels[v.best->0];
    assert(queue[0] == first(v));
    assert(queue.contains(first(v)));
    lemma_removed_wf(v, v.best->0, first(v));
}

/// One trade: what it leaves of both orders.
pub proof fn lemma_trade(v: SideView, taker: Order, remaining: Binary64)
    requires
        v.wf(),
        solid(v),
        trades(v, taker, remaining),
        settles(v, taker.holding(remaining)),
    ensures
        ({
            let maker = v.orders[first(v)];
            let amount = next_fill(v, taker, remaining).amount;
            let left = maker.amount.minus(amount);
            let rest = remaining.minus(amount);
            &&& amount.positive() && !amount.infinite()
            &&& amount.value() <= maker.amount.value()
            &&& remaining.nan() || amount.value() <= remaining.value()
            &&& left.nonpositive() <==> amount == maker.amount
            &&& left.nonpositive() || left.positive() && rest.nonpositive()
            &&& rest.boundless() ==> remaining.boundless()
        }),
{
    let maker = v.orders[first(v)];
    let amount = next_fill(v, taker, remaining).amount;
    lemma_first(v);
    lemma_sign(remaining);
    lemma_sign(maker.amount);
    lemma_price_key(remaining, maker.amount);
    lemma_price_key(maker.amount, remaining);
    assert(reaches(v, taker.holding(remaining), maker.level()));
    lemma_minus(maker.amount, amount);
    if remaining.positive() {
        lemma_minus(remaining, amount);
    }
    lemma_sign(maker.amount.minus(amount));
    lemma_sign(remaining.minus(amount));
}

/// A trade that uses up the first resting order keeps what the trades rest on.
pub proof fn lemma_used_up(v: SideView, taker: Order, remaining: Binary64)
    requires
        v.wf(),
        solid(v),
        trades(v, taker, remaining),
        settles(v, taker.holding(remaining)),
    ensures
        ({
            let w = v.removed(v.best->0, first(v));
            let rest = remaining.minus(next_fill(v, taker, remaining).amount);
            &&& w.wf()
            &&& solid(w)
            &&& settles(w, taker.holding(rest))
        }),
{
    let w = v.removed(v.best->0, first(v));
    let rest = remaining.minus(next_fill(v, taker, remaining).amount);
    lemma_first(v);
    lemma_trade(v, taker, remaining);
    assert forall|n: NodeRef| #[trigger]
        w.orders.contains_key(n) && reaches(w, taker.holding(rest), w.orders[n].level())
            && rest.boundless() implies !w.orders[n].amount.infinite() by {
        let price = w.orders[n].level();
        assert(v.orders.contains_key(n));
        assert(reaches(v, taker.holding(remaining), price));
    }
}

/// Whether an incoming order on `side` with the given limit may trade at `price`.
fn within(side: Side, limit: Price, price: Price) -> (r: bool)
    ensures
        r == crosses(side, limit, price),
{
    match side {
        Side::BUY => price <= limit,
        Side::SELL => limit <= price,
    }
}

/// The best price, as long as an incoming order goes on trading.
fn next_price(side: &OrderBookSide, taker: &Order, remaining: Binary64) -> (r: Option<Price>)
    requires
        side.wf(),
    ensures
        r == if trades(side@, *taker, remaining) {
            side@.best
        } else {
            None
        },
{
    let best: Price = match side.best_price() {
        Some(best) => best,
        None => {
            return None;
        },
    };
    if within(taker.side, price_of(taker.price), best) && !remaining.is_nonpositive() {
        Some(best)
    } else {
        None
    }
}

/// Trades an incoming order with a side, and returns what is left of it with the trades.
pub(crate) fn sweep_side(
    side: &mut OrderBookSide,
    order_map: &mut HashMap<OrderId, OrderMapEntry>,
    taker: &Order,
) -> (r: (Binary64, Vec<Fill>))
    requires
        old(side).wf(),
        solid(old(side)@),
        settles(old(side)@, *taker),
    ensures
        final(side).wf(),
        sweep(old(side)@, old(order_map)@, *taker, taker.amount) == (Sweep {
            side: final(side)@,
            index: final(order_map)@,
            remaining: r.0,
            fills: r.1@,
        }),
{
    let ghost whole = sweep(side@, order_map@, *taker, taker.amount);
    let mut remaining: Binary64 = taker.amount;
    let mut fills: Vec<Fill> = Vec::new();
    let mut next: Option<Price> = next_price(side, taker, remaining);
    while next.is_some()
        invariant
            side.wf(),
            side@.wf(),
            solid(side@),
            settles(side@, taker.holding(remaining)),
            next == if trades(side@, *taker, remaining) {
                side@.best
            } else {
                None
            },
            ({
                let rest = sweep(side@, order_map@, *taker, remaining);
                whole == Sweep { fills: fills@ + rest.fills, ..rest }
            }),
        decreases side@.orders.dom().len(), (if remaining.nonpositive() { 0int } else { 1int }),
    {
        let price: Price = next.unwrap();
        let ghost v = side@;
        let node: NodeRef = side.head(price);
        proof {
            lemma_first(v);
            lemma_trade(v, *taker, remaining);
        }
        let maker: Order = side.order(node);
        let matched: Binary64 = remaining.min(maker.amount);
        fills.push(Fill {
            side: taker.side,
            taker_id: taker.id,
            maker_id: maker.id,
            price: side.quote(price),
            amount: matched,
        });
        let left: Binary64 = maker.amount.subtract(matched);
        if left.is_nonpositive() {
            side.remove_node(price, node);
            order_map.remove(&maker.id);
            proof {
                lemma_used_up(v, *taker, remaining);
            }
        } else {
            side.reduce(node, left);
            proof {
                lemma_reduced_wf(v, node, left);
            }
        }
        remaining = remaining.subtract(matched);
        next = next_price(side, taker, remaining);
    }
    (remaining, fills)
}

/// No order in the queue at `price` is infinite.
spec fn finite_level(v: SideView, price: Price) -> bool {
    forall|i: int|
        0 <= i < v.levels[price].len()
            ==> !v.orders[#[trigger] v.levels[price][i]].amount.infinite()
}

fn level_is_finite(side: &OrderBookSide, price: Price) -> (r: bool)
    requires
        side.wf(),
        side@.levels.contains_key(price),
    ensures
        r == finite_level(side@, price),
{
    match side.level_orders(price) {
        Some(orders) => {
            let ghost queue = side@.levels[price];
            for i in 0..orders.len()
                invariant
                    orders@ == queue.map_values(|n: NodeRef| side@.orders[n]),
                    queue == side@.levels[price],
                    forall|j: int| 0 <= j < i ==> !orders@[j].amount.infinite(),
            {
                if orders[i].amount.is_infinite() {
                    assert(orders@[i as int] == side@.orders[queue[i as int]]);
                    return false;
                }
            }
            assert forall|i: int|
                0 <= i < queue.len() implies !side@.orders[#[trigger]
                queue[i]].amount.infinite() by {
                assert(orders@[i] == side@.orders[queue[i]]);
            }
            true
        },
        None => false,
    }
}

/// Whether the trades of an incoming order with a side come to an end.
pub(crate) fn side_settles(side: &OrderBookSide, taker: &Order) -> (r: bool)
    requires
        side.wf(),
    ensures
        r == settles(side@, *taker),
{
    if !(taker.amount.is_nan() || taker.amount.is_infinite() && !taker.amount.is_nonpositive()) {
        proof {
            lemma_sign(taker.amount);
        }
        return true;
    }
    proof {
        lemma_sign(taker.amount);
    }
    let limit: Price = price_of(taker.price);
    let prices: Vec<Price> = side.prices();
    let mut i: usize = 0;
    while i < prices.len()
        invariant
            side.wf(),
            limit == taker.level(),
            taker.amount.boundless(),
            i <= prices@.len(),
            forall|p: Price| #[trigger] prices@.contains(p) <==> side@.levels.contains_key(p),
            forall|j: int|
                0 <= j < i && reaches(side@, *taker, #[trigger] prices@[j]) ==> finite_level(
                    side@,
                    prices@[j],
                ),
        decreases prices@.len() - i,
    {
        let price: Price = prices[i];
        assert(prices@.contains(price));
        if within(taker.side, limit, price) && !level_is_finite(side, price) {
            proof {
                let k = choose|k: int|
                    0 <= k < side@.levels[price].len()
                        && side@.orders[#[trigger] side@.levels[price][k]].amount.infinite();
                let n = side@.levels[price][k];
                assert(side@.orders.contains_key(n) && side@.orders[n].level() == price);
            }
            return false;
        }
        i = i + 1;
    }
    proof {
        assert forall|n: NodeRef| #[trigger]
            side@.orders.contains_key(n) && reaches(
                side@,
                *taker,
                side@.orders[n].level(),
            ) implies !side@.orders[n].amount.infinite() by {
            let p = side@.orders[n].level();
            assert(prices@.contains(p));
            let j = prices@.index_of(p);
            assert(prices@[j] == p);
            let k = side@.levels[p].index_of(n);
            assert(side@.levels[p][k] == n);
        }
    }
    true
}

} // verus!

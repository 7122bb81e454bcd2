//! What the book keeps, over several calls and whatever comes in.
use crate::binary64::{
    law_patterns, lemma_exact, lemma_minus, lemma_price_key, lemma_sign, on_grid, price_key,
    Binary64,
};
use crate::book::{
    belongs, lemma_cancelled_wf, lemma_others_rest, lemma_removed_best, lemma_rested_wf,
    lemma_traded_wf, BookView,
};
use crate::matching::{
    first, lemma_first, lemma_trade, lemma_used_up, next_fill, settles, solid, sweep, trades, Fill,
    OrderMapEntry,
};
use crate::order::{crosses, improves, Order, OrderId, Price, Side};
use crate::side::{
    best_of, highest, is_highest, is_lowest, law_joining, law_leaving, lemma_best_of,
    lemma_inserted_wf, lemma_reduced_wf, lemma_removed_wf, lowest, without, NodeRef, SideView,
};
use vstd::prelude::*;

verus! {

/// What the trades of an incoming order leave of a side: some levels, and of each the end of its
/// queue and its quote.
proof fn lemma_leftovers(
    v: SideView,
    index: Map<OrderId, OrderMapEntry>,
    taker: Order,
    remaining: Binary64,
)
    requires
        v.wf(),
        solid(v),
        settles(v, taker.holding(remaining)),
    ensures
        ({
            let s = sweep(v, index, taker, remaining);
            &&& s.side.wf()
            &&& forall|p: Price| #[trigger]
                s.side.levels.contains_key(p) ==> v.levels.contains_key(p)
                    && s.side.levels[p].is_suffix_of(v.levels[p])
                    && s.side.quotes[p] == v.quotes[p]
            &&& !trades(s.side, taker, s.remaining)
        }),
    decreases v.orders.dom().len(),
{
    let s = sweep(v, index, taker, remaining);
    if trades(v, taker, remaining) {
        let price = v.best->0;
        let maker = v.orders[first(v)];
        let amount = next_fill(v, taker, remaining).amount;
        lemma_first(v);
        lemma_trade(v, taker, remaining);
        if maker.amount.minus(amount).nonpositive() {
            let w = v.removed(price, first(v));
            lemma_used_up(v, taker, remaining);
            lemma_leftovers(w, index.remove(maker.id), taker, remaining.minus(amount));
            assert forall|p: Price| #[trigger]
                s.side.levels.contains_key(p) implies v.levels.contains_key(p)
                && s.side.levels[p].is_suffix_of(v.levels[p])
                && s.side.quotes[p] == v.quotes[p] by {
                assert(w.levels.contains_key(p));
                let queue = v.levels[p];
                if p == price {
                    assert(without(queue, first(v)) =~= queue.skip(1));
                }
                assert(w.levels[p].is_suffix_of(queue));
            }
        } else {
            lemma_reduced_wf(v, first(v), maker.amount.minus(amount));
        }
    }
}

/// Orders at one price trade in the order in which they came: what is left of a queue is its end.
pub proof fn law_first_come_first_served(book: BookView, order: Order, price: Price)
    requires
        book.wf(),
        settles(book.other(order.side), order),
        book.swept(order).side.levels.contains_key(price),
    ensures
        book.other(order.side).levels.contains_key(price),
        book.swept(order).side.levels[price].is_suffix_of(book.other(order.side).levels[price]),
{
    lemma_leftovers(book.other(order.side), book.index, order, order.amount);
}

/// An incoming order trades for as long as it can: in the end it is used up, or the best price on
/// the other side is beyond its limit.
pub proof fn law_trades_to_the_end(book: BookView, order: Order)
    requires
        book.wf(),
        settles(book.other(order.side), order),
    ensures
        !trades(book.swept(order).side, order, book.swept(order).remaining),
{
    lemma_leftovers(book.other(order.side), book.index, order, order.amount);
}

proof fn lemma_fills(
    v: SideView,
    index: Map<OrderId, OrderMapEntry>,
    taker: Order,
    remaining: Binary64,
)
    requires
        v.wf(),
        solid(v),
        settles(v, taker.holding(remaining)),
    ensures
        ({
            let s = sweep(v, index, taker, remaining);
            forall|i: int|
                0 <= i < s.fills.len() ==> {
                    &&& (#[trigger] s.fills[i]).side == taker.side
                    &&& s.fills[i].taker_id == taker.id
                    &&& v.levels.contains_key(s.fills[i].level())
                    &&& s.fills[i].price == v.quotes[s.fills[i].level()]
                    &&& crosses(taker.side, taker.level(), s.fills[i].level())
                    &&& s.fills[i].amount.positive() && !s.fills[i].amount.infinite()
                }
        }),
    decreases v.orders.dom().len(),
{
    if trades(v, taker, remaining) {
        let maker = v.orders[first(v)];
        let amount = next_fill(v, taker, remaining).amount;
        lemma_first(v);
        lemma_trade(v, taker, remaining);
        if maker.amount.minus(amount).nonpositive() {
            let w = v.removed(v.best->0, first(v));
            lemma_used_up(v, taker, remaining);
            lemma_fills(w, index.remove(maker.id), taker, remaining.minus(amount));
            let s = sweep(v, index, taker, remaining);
            let rest = sweep(w, index.remove(maker.id), taker, remaining.minus(amount));
            assert forall|i: int| 0 <= i < s.fills.len() implies {
                &&& (#[trigger] s.fills[i]).side == taker.side
                &&& s.fills[i].taker_id == taker.id
                &&& v.levels.contains_key(s.fills[i].level())
                &&& s.fills[i].price == v.quotes[s.fills[i].level()]
                &&& crosses(taker.side, taker.level(), s.fills[i].level())
                &&& s.fills[i].amount.positive() && !s.fills[i].amount.infinite()
            } by {
                if i > 0 {
                    assert(s.fills[i] == rest.fills[i - 1]);
                    assert(w.levels.contains_key(s.fills[i].level()));
                }
            }
        }
    }
}

/// Every trade of an incoming order is at the price that a level on the other side was opened at,
/// within the order's limit, and for a positive finite amount.
pub proof fn law_trades_within_limit(book: BookView, order: Order, i: int)
    requires
        book.wf(),
        settles(book.other(order.side), order),
        0 <= i < book.swept(order).fills.len(),
    ensures
        book.swept(order).fills[i].side == order.side,
        book.swept(order).fills[i].taker_id == order.id,
        book.other(order.side).levels.contains_key(book.swept(order).fills[i].level()),
        book.swept(order).fills[i].price == book.other(
            order.side,
        ).quotes[book.swept(order).fills[i].level()],
        crosses(order.side, order.level(), book.swept(order).fills[i].level()),
        book.swept(order).fills[i].amount.positive(),
        !book.swept(order).fills[i].amount.infinite(),
{
    lemma_fills(book.other(order.side), book.index, order, order.amount);
}

/// Trades take the best prices of the other side first: no later one, and none that is left,
/// improves on an earlier one. Nor does any improve on `cap`, if no level did.
proof fn lemma_best_first(
    v: SideView,
    side: Side,
    index: Map<OrderId, OrderMapEntry>,
    taker: Order,
    remaining: Binary64,
    cap: Price,
)
    requires
        v.wf(),
        solid(v),
        belongs(v, side),
        settles(v, taker.holding(remaining)),
        v.best == best_of(side, v.levels.dom()),
        forall|p: Price| #[trigger] v.levels.contains_key(p) ==> !improves(side, p, cap),
    ensures
        ({
            let s = sweep(v, index, taker, remaining);
            &&& forall|i: int|
                0 <= i < s.fills.len() ==> !improves(side, (#[trigger] s.fills[i]).level(), cap)
            &&& forall|i: int, j: int|
                0 <= i <= j < s.fills.len() ==> !improves(
                    side,
                    (#[trigger] s.fills[j]).level(),
                    (#[trigger] s.fills[i]).level(),
                )
            &&& forall|i: int, p: Price|
                0 <= i < s.fills.len() && #[trigger] s.side.levels.contains_key(p) ==> !improves(
                    side,
                    p,
                    (#[trigger] s.fills[i]).level(),
                )
        }),
    decreases v.orders.dom().len(),
{
    let s = sweep(v, index, taker, remaining);
    if trades(v, taker, remaining) {
        let price = v.best->0;
        let maker = v.orders[first(v)];
        let amount = next_fill(v, taker, remaining).amount;
        lemma_first(v);
        lemma_trade(v, taker, remaining);
        lemma_best_of(side, v.levels.dom(), price);
        lemma_leftovers(v, index, taker, remaining);
        if maker.amount.minus(amount).nonpositive() {
            let w = v.removed(price, first(v));
            let index1 = index.remove(maker.id);
            lemma_used_up(v, taker, remaining);
            lemma_removed_best(v, side, price, first(v));
            lemma_best_first(w, side, index1, taker, remaining.minus(amount), price);
            let rest = sweep(w, index1, taker, remaining.minus(amount));
            assert(forall|i: int| 0 < i < s.fills.len() ==> s.fills[i] == rest.fills[i - 1]);
        }
    }
}

/// An order to buy trades with the lowest asks first: its trades go from lower prices to higher
/// ones, and no ask that is left is below a price it traded at.
pub proof fn law_lowest_asks_first(book: BookView, order: Order, i: int, j: int, price: Price)
    requires
        book.wf(),
        settles(book.other(order.side), order),
        order.side == Side::BUY,
        0 <= i <= j < book.swept(order).fills.len(),
    ensures
        book.swept(order).fills[i].level() <= book.swept(order).fills[j].level(),
        book.swept(order).side.levels.contains_key(price) ==> book.swept(order).fills[j].level()
            <= price,
{
    lemma_best_first(book.asks, Side::SELL, book.index, order, order.amount, 0);
}

/// An order to sell trades with the highest bids first: its trades go from higher prices to lower
/// ones, and no bid that is left is above a price it traded at.
pub proof fn law_highest_bids_first(book: BookView, order: Order, i: int, j: int, price: Price)
    requires
        book.wf(),
        settles(book.other(order.side), order),
        order.side == Side::SELL,
        0 <= i <= j < book.swept(order).fills.len(),
    ensures
        book.swept(order).fills[i].level() >= book.swept(order).fills[j].level(),
        book.swept(order).side.levels.contains_key(price) ==> book.swept(order).fills[j].level()
            >= price,
{
    lemma_best_first(book.bids, Side::BUY, book.index, order, order.amount, u64::MAX);
}

/// What became of the order that rested as `node`: it was used up by a trade and is gone, and its
/// id leads nowhere; or it is still there as it was; or the last trade cut it, which used up the
/// incoming order, and it stands first in the queue at the best price.
pub open spec fn fate(
    v: SideView,
    index: Map<OrderId, OrderMapEntry>,
    taker: Order,
    remaining: Binary64,
    node: NodeRef,
) -> bool {
    let s = sweep(v, index, taker, remaining);
    let maker = v.orders[node];
    if s.side.orders.contains_key(node) {
        ||| s.side.orders[node] == maker
        ||| {
            &&& s.fills.len() > 0
            &&& s.fills.last().maker_id == maker.id
            &&& s.fills.last().level() == maker.level()
            &&& s.side.orders[node] == maker.holding(maker.amount.minus(s.fills.last().amount))
            &&& s.remaining.nonpositive()
            &&& s.side.best is Some && node == first(s.side)
        }
    } else {
        &&& !s.index.contains_key(maker.id)
        &&& exists|i: int|
            0 <= i < s.fills.len() && (#[trigger] s.fills[i]).maker_id == maker.id
                && s.fills[i].level() == maker.level() && s.fills[i].amount == maker.amount
    }
}

proof fn lemma_fate(
    v: SideView,
    index: Map<OrderId, OrderMapEntry>,
    taker: Order,
    remaining: Binary64,
    node: NodeRef,
)
    requires
        v.wf(),
        solid(v),
        settles(v, taker.holding(remaining)),
        v.orders.contains_key(node),
    ensures
        fate(v, index, taker, remaining, node),
    decreases v.orders.dom().len(),
{
    let s = sweep(v, index, taker, remaining);
    if trades(v, taker, remaining) {
        let maker = v.orders[first(v)];
        let fill = next_fill(v, taker, remaining);
        lemma_first(v);
        lemma_trade(v, taker, remaining);
        if maker.amount.minus(fill.amount).nonpositive() {
            let w = v.removed(v.best->0, first(v));
            let index1 = index.remove(maker.id);
            let left = remaining.minus(fill.amount);
            let rest = sweep(w, index1, taker, left);
            lemma_used_up(v, taker, remaining);
            lemma_shrinks(w, index1, taker, left);
            assert(s.fills[0] == fill);
            if node != first(v) {
                lemma_fate(w, index1, taker, left, node);
                if !s.side.orders.contains_key(node) {
                    let i = choose|i: int|
                        0 <= i < rest.fills.len() && (#[trigger] rest.fills[i]).maker_id
                            == v.orders[node].id && rest.fills[i].level() == v.orders[node].level()
                            && rest.fills[i].amount == v.orders[node].amount;
                    assert(s.fills[i + 1] == rest.fills[i]);
                }
            }
        }
    }
}

/// Some trade was with an order of the given id.
pub open spec fn has_fill(fills: Seq<Fill>, id: OrderId) -> bool {
    exists|i: int| 0 <= i < fills.len() && (#[trigger] fills[i]).maker_id == id
}

/// Trades only take orders and index entries away.
proof fn lemma_shrinks(
    v: SideView,
    index: Map<OrderId, OrderMapEntry>,
    taker: Order,
    remaining: Binary64,
)
    requires
        v.wf(),
        solid(v),
        settles(v, taker.holding(remaining)),
    ensures
        ({
            let s = sweep(v, index, taker, remaining);
            &&& forall|n: NodeRef| #[trigger]
                s.side.orders.contains_key(n) ==> v.orders.contains_key(n)
            &&& forall|id: OrderId| #[trigger]
                s.index.contains_key(id) ==> index.contains_key(id) && s.index[id] == index[id]
            &&& forall|id: OrderId| #[trigger]
                index.contains_key(id) ==> s.index.contains_key(id) || has_fill(s.fills, id)
        }),
    decreases v.orders.dom().len(),
{
    if trades(v, taker, remaining) {
        let maker = v.orders[first(v)];
        let amount = next_fill(v, taker, remaining).amount;
        lemma_first(v);
        if maker.amount.minus(amount).nonpositive() {
            lemma_used_up(v, taker, remaining);
            let w = v.removed(v.best->0, first(v));
            let index1 = index.remove(maker.id);
            lemma_shrinks(w, index1, taker, remaining.minus(amount));
            let s = sweep(v, index, taker, remaining);
            assert forall|n: NodeRef| #[trigger]
                s.side.orders.contains_key(n) implies v.orders.contains_key(n) by {
                assert(w.orders.contains_key(n));
            }
            assert forall|id: OrderId| #[trigger]
                s.index.contains_key(id) implies index.contains_key(id) && s.index[id]
                == index[id] by {
                assert(index1.contains_key(id));
            }
            let rest = sweep(w, index1, taker, remaining.minus(amount));
            assert forall|id: OrderId| #[trigger]
                index.contains_key(id) implies s.index.contains_key(id) || has_fill(
                s.fills,
                id,
            ) by {
                if id == maker.id {
                    assert(s.fills[0].maker_id == id);
                } else {
                    assert(index1.contains_key(id));
                    if has_fill(rest.fills, id) {
                        let i = choose|i: int|
                            0 <= i < rest.fills.len() && (#[trigger] rest.fills[i]).maker_id == id;
                        assert(s.fills[i + 1] == rest.fills[i]);
                    }
                }
            }
        }
    }
}

/// What an incoming order does to each order on the other side.
pub proof fn law_fate_of_resting_orders(book: BookView, order: Order, node: NodeRef)
    requires
        book.wf(),
        settles(book.other(order.side), order),
        book.other(order.side).orders.contains_key(node),
    ensures
        fate(book.other(order.side), book.index, order, order.amount, node),
{
    lemma_fate(book.other(order.side), book.index, order, order.amount, node);
}

/// An id that no trade was with leads where it led before.
pub proof fn law_untraded_ids_stay(book: BookView, order: Order, id: OrderId)
    requires
        book.wf(),
        settles(book.other(order.side), order),
        book.index.contains_key(id),
        !has_fill(book.swept(order).fills, id),
    ensures
        book.swept(order).index.contains_key(id),
        book.swept(order).index[id] == book.index[id],
{
    lemma_shrinks(book.other(order.side), book.index, order, order.amount);
}

/// The sum of the amounts that were traded, in units of the smallest positive number.
pub open spec fn volume(fills: Seq<Fill>) -> int
    decreases fills.len(),
{
    if fills.len() == 0 {
        0
    } else {
        fills[0].amount.value() + volume(fills.drop_first())
    }
}

/// The sum of the amounts of resting orders, in units of the smallest positive number.
pub open spec fn holdings(orders: Map<NodeRef, Order>) -> int
    decreases orders.dom().len(),
    when orders.dom().finite()
{
    if orders.dom().len() == 0 {
        0
    } else {
        let n = orders.dom().choose();
        orders[n].amount.value() + holdings(orders.remove(n))
    }
}

/// Any order may be counted first.
proof fn lemma_holdings(orders: Map<NodeRef, Order>, n: NodeRef)
    requires
        orders.dom().finite(),
        orders.contains_key(n),
    ensures
        holdings(orders) == orders[n].amount.value() + holdings(orders.remove(n)),
    decreases orders.dom().len(),
{
    let m = orders.dom().choose();
    if m != n {
        lemma_holdings(orders.remove(m), n);
        lemma_holdings(orders.remove(n), m);
        assert(orders.remove(m).remove(n) =~= orders.remove(n).remove(m));
    }
}

proof fn lemma_conserved(
    v: SideView,
    index: Map<OrderId, OrderMapEntry>,
    taker: Order,
    remaining: Binary64,
    k: nat,
)
    requires
        v.wf(),
        solid(v),
        on_grid(remaining, k),
        forall|n: NodeRef| #[trigger] v.orders.contains_key(n) ==> on_grid(v.orders[n].amount, k),
    ensures
        ({
            let s = sweep(v, index, taker, remaining);
            &&& s.remaining.value() + volume(s.fills) == remaining.value()
            &&& holdings(s.side.orders) + volume(s.fills) == holdings(v.orders)
            &&& on_grid(s.remaining, k)
            &&& forall|n: NodeRef| #[trigger]
                s.side.orders.contains_key(n) ==> on_grid(s.side.orders[n].amount, k)
        }),
    decreases v.orders.dom().len(),
{
    let s = sweep(v, index, taker, remaining);
    if trades(v, taker, remaining) {
        let maker = v.orders[first(v)];
        let fill = next_fill(v, taker, remaining);
        lemma_first(v);
        lemma_trade(v, taker, remaining);
        lemma_exact(remaining, fill.amount, k);
        lemma_exact(maker.amount, fill.amount, k);
        lemma_holdings(v.orders, first(v));
        if maker.amount.minus(fill.amount).nonpositive() {
            let w = v.removed(v.best->0, first(v));
            let left = remaining.minus(fill.amount);
            lemma_used_up(v, taker, remaining);
            lemma_conserved(w, index.remove(maker.id), taker, left, k);
            let rest = sweep(w, index.remove(maker.id), taker, left);
            assert(s.fills.drop_first() =~= rest.fills);
            assert(s.fills[0] == fill);
        } else {
            assert(s.fills.drop_first() =~= Seq::<Fill>::empty());
            assert(volume(s.fills.drop_first()) == 0);
            let cut = s.side.orders;
            lemma_holdings(cut, first(v));
            assert(cut.remove(first(v)) =~= v.orders.remove(first(v)));
        }
    }
}

/// Amounts that are whole numbers of one unit, and not more than `2^53` of them, are kept to the
/// last digit: what an incoming order traded and what is left of it make up what it came with, and
/// what it traded is what the other side lost. What is left, of it and of the others, is again such
/// an amount.
pub proof fn law_amounts_are_conserved(book: BookView, order: Order, k: nat)
    requires
        book.wf(),
        on_grid(order.amount, k),
        forall|n: NodeRef| #[trigger]
            book.other(order.side).orders.contains_key(n) ==> on_grid(
                book.other(order.side).orders[n].amount,
                k,
            ),
    ensures
        book.swept(order).remaining.value() + volume(book.swept(order).fills)
            == order.amount.value(),
        holdings(book.swept(order).side.orders) + volume(book.swept(order).fills) == holdings(
            book.other(order.side).orders,
        ),
        on_grid(book.swept(order).remaining, k),
        forall|n: NodeRef| #[trigger]
            book.swept(order).side.orders.contains_key(n) ==> on_grid(
                book.swept(order).side.orders[n].amount,
                k,
            ),
{
    lemma_conserved(book.other(order.side), book.index, order, order.amount, k);
}

/// An order that finds no price within its limit rests as it came, behind all others at its price,
/// and trades nothing.
pub proof fn law_order_rests_whole(book: BookView, order: Order, post: BookView)
    requires
        book.wf(),
        order.amount.positive(),
        !trades(book.other(order.side), order, order.amount),
        book.becomes(order, post),
    ensures
        book.swept(order).fills.len() == 0,
        post.other(order.side) == book.other(order.side),
        post.index.contains_key(order.id),
        post.index[order.id].0 == order.side,
        post.index[order.id].1 == order.level(),
        ({
            let node = post.index[order.id].2;
            &&& !book.own(order.side).orders.contains_key(node)
            &&& post.own(order.side).orders == book.own(order.side).orders.insert(node, order)
            &&& post.own(order.side).levels[order.level()].last() == node
        }),
{
    assert(order.holding(order.amount) == order);
}

/// An order that is cancelled right after it came to rest leaves the book as it was before, as
/// long as its id led nowhere before.
pub proof fn law_cancel_undoes_insert(book: BookView, order: Order, post: BookView)
    requires
        book.wf(),
        order.amount.positive(),
        !trades(book.other(order.side), order, order.amount),
        !book.index.contains_key(order.id),
        book.becomes(order, post),
    ensures
        post.cancelled(order.id) == book,
{
    law_order_rests_whole(book, order, post);
    let v = book.own(order.side);
    let w = post.own(order.side);
    let price = order.level();
    let node = post.index[order.id].2;
    let back = post.cancelled(order.id);
    assert(w == v.inserted(node, order));
    let queue = w.levels[price];
    assert(queue.last() == node);
    assert(queue.contains(node));
    assert(queue.index_of(node) == queue.len() - 1) by {
        lemma_inserted_wf(v, node, order);
    }
    if v.levels.contains_key(price) {
        assert(without(queue, node) =~= v.levels[price]);
    } else {
        assert(without(queue, node) =~= Seq::<NodeRef>::empty());
    }
    let x = back.own(order.side);
    assert(x.levels =~= v.levels);
    assert(x.orders =~= v.orders);
    assert(back.index =~= book.index);
}

/// Cancelling an id that leads nowhere changes nothing; so does cancelling one twice.
pub proof fn law_cancel_twice(book: BookView, id: OrderId)
    requires
        book.wf(),
    ensures
        !book.index.contains_key(id) ==> book.cancelled(id) == book,
        !book.cancelled(id).index.contains_key(id),
        book.cancelled(id).cancelled(id) == book.cancelled(id),
{
}

/// A cancelled order is gone from its level and from the index, and all other orders are where
/// they were.
pub proof fn law_cancel_takes_one_order(book: BookView, id: OrderId, other: OrderId)
    requires
        book.wf(),
        book.index.contains_key(id),
        other != id,
    ensures
        ({
            let (side, price, node) = book.index[id];
            let post = book.cancelled(id);
            &&& !post.own(side).orders.contains_key(node)
            &&& post.own(side).orders == book.own(side).orders.remove(node)
            &&& post.other(side) == book.other(side)
            &&& post.index.contains_key(other) == book.index.contains_key(other)
            &&& post.index.contains_key(other) ==> post.index[other] == book.index[other]
            &&& post.own(side).levels.contains_key(price) <==> book.own(side).levels[price].len()
                > 1
            &&& forall|p: Price|
                p != price ==> #[trigger] post.own(side).levels.contains_key(p)
                    == book.own(side).levels.contains_key(p) && post.own(side).levels[p]
                    == book.own(side).levels[p]
        }),
{
    let (side, price, node) = book.index[id];
    lemma_removed_wf(book.own(side), price, node);
}

/// The id of every order that rests on `side` leads to it.
pub open spec fn listed(v: SideView, side: Side, index: Map<OrderId, OrderMapEntry>) -> bool {
    forall|n: NodeRef| #[trigger]
        v.orders.contains_key(n) ==> {
            &&& index.contains_key(v.orders[n].id)
            &&& index[v.orders[n].id] == (side, v.orders[n].level(), n)
        }
}

/// Every resting order can be found by its id, and so cancelled.
pub open spec fn complete(book: BookView) -> bool {
    &&& listed(book.bids, Side::BUY, book.index)
    &&& listed(book.asks, Side::SELL, book.index)
}

proof fn lemma_listed(
    v: SideView,
    side: Side,
    index: Map<OrderId, OrderMapEntry>,
    taker: Order,
    remaining: Binary64,
)
    requires
        v.wf(),
        solid(v),
        settles(v, taker.holding(remaining)),
        listed(v, side, index),
    ensures
        ({
            let s = sweep(v, index, taker, remaining);
            &&& listed(s.side, side, s.index)
            &&& forall|id: OrderId| #[trigger]
                index.contains_key(id) && index[id].0 != side ==> s.index.contains_key(id)
                    && s.index[id] == index[id]
        }),
    decreases v.orders.dom().len(),
{
    if trades(v, taker, remaining) {
        let maker = v.orders[first(v)];
        let amount = next_fill(v, taker, remaining).amount;
        lemma_first(v);
        lemma_trade(v, taker, remaining);
        if maker.amount.minus(amount).nonpositive() {
            let w = v.removed(v.best->0, first(v));
            let index1 = index.remove(maker.id);
            lemma_used_up(v, taker, remaining);
            assert forall|n: NodeRef| #[trigger] w.orders.contains_key(n) implies {
                &&& index1.contains_key(w.orders[n].id)
                &&& index1[w.orders[n].id] == (side, w.orders[n].level(), n)
            } by {
                assert(v.orders.contains_key(n));
            }
            lemma_listed(w, side, index1, taker, remaining.minus(amount));
            let s = sweep(v, index, taker, remaining);
            assert forall|id: OrderId| #[trigger]
                index.contains_key(id) && index[id].0 != side implies s.index.contains_key(id)
                && s.index[id] == index[id] by {
                assert(index1.contains_key(id));
            }
        }
    }
}

/// As long as no order comes to rest under an id that is in use, every resting order can be found
/// by its id.
pub proof fn law_fresh_ids_keep_the_index_complete(book: BookView, order: Order, post: BookView)
    requires
        book.wf(),
        complete(book),
        settles(book.other(order.side), order),
        !book.swept(order).index.contains_key(order.id) || !book.swept(
            order,
        ).remaining.positive(),
        book.becomes(order, post),
    ensures
        complete(post),
{
    let v = book.other(order.side);
    let side = match order.side {
        Side::BUY => Side::SELL,
        Side::SELL => Side::BUY,
    };
    lemma_listed(v, side, book.index, order, order.amount);
    lemma_shrinks(v, book.index, order, order.amount);
    let s = book.swept(order);
    let own = book.own(order.side);
    assert(listed(own, order.side, s.index)) by {
        assert forall|n: NodeRef| #[trigger] own.orders.contains_key(n) implies {
            &&& s.index.contains_key(own.orders[n].id)
            &&& s.index[own.orders[n].id] == (order.side, own.orders[n].level(), n)
        } by {
            assert(book.index.contains_key(own.orders[n].id));
        }
    }
}

/// Cancelling keeps the index complete.
pub proof fn law_cancel_keeps_the_index_complete(book: BookView, id: OrderId)
    requires
        book.wf(),
        complete(book),
    ensures
        complete(book.cancelled(id)),
{
    let post = book.cancelled(id);
    assert forall|n: NodeRef| #[trigger] post.bids.orders.contains_key(n) implies {
        &&& post.index.contains_key(post.bids.orders[n].id)
        &&& post.index[post.bids.orders[n].id] == (Side::BUY, post.bids.orders[n].level(), n)
    } by {
        assert(book.bids.orders.contains_key(n));
    }
    assert forall|n: NodeRef| #[trigger] post.asks.orders.contains_key(n) implies {
        &&& post.index.contains_key(post.asks.orders[n].id)
        &&& post.index[post.asks.orders[n].id] == (Side::SELL, post.asks.orders[n].level(), n)
    } by {
        assert(book.asks.orders.contains_key(n));
    }
}

/// In a complete index there are as many ids as resting orders.
pub proof fn law_complete_index_counts_the_orders(book: BookView)
    requires
        book.wf(),
        complete(book),
    ensures
        book.index.dom().len() == book.bids.orders.dom().len() + book.asks.orders.dom().len(),
{
    let of_bid = |n: NodeRef| book.bids.orders[n].id;
    let of_ask = |n: NodeRef| book.asks.orders[n].id;
    let bids = book.bids.orders.dom().map(of_bid);
    let asks = book.asks.orders.dom().map(of_ask);
    vstd::set_lib::lemma_map_size(book.bids.orders.dom(), bids, of_bid);
    vstd::set_lib::lemma_map_size(book.asks.orders.dom(), asks, of_ask);
    assert(book.index.dom() =~= bids + asks);
    assert(bids.disjoint(asks));
    vstd::set_lib::lemma_set_disjoint_lens(bids, asks);
}

/// Every bid is below every ask.
pub open spec fn uncrossed(book: BookView) -> bool {
    forall|bid: Price, ask: Price| #[trigger]
        book.bids.levels.contains_key(bid) && #[trigger] book.asks.levels.contains_key(ask) ==> bid
            < ask
}

/// An incoming order never leaves a bid at or above an ask where there was none.
pub proof fn law_insert_keeps_the_book_uncrossed(book: BookView, order: Order, post: BookView)
    requires
        book.wf(),
        uncrossed(book),
        settles(book.other(order.side), order),
        book.becomes(order, post),
    ensures
        uncrossed(post),
{
    lemma_leftovers(book.other(order.side), book.index, order, order.amount);
    lemma_traded_wf(book, order);
    let s = book.swept(order);
    let side = match order.side {
        Side::BUY => Side::SELL,
        Side::SELL => Side::BUY,
    };
    if s.side.best is Some {
        lemma_best_of(side, s.side.levels.dom(), s.side.best->0);
    }
    assert forall|bid: Price, ask: Price| #[trigger]
        post.bids.levels.contains_key(bid) && #[trigger] post.asks.levels.contains_key(
            ask,
        ) implies bid < ask by {
        let (own, other) = match order.side {
            Side::BUY => (bid, ask),
            Side::SELL => (ask, bid),
        };
        assert(s.side.levels.contains_key(other));
        assert(book.other(order.side).levels.contains_key(other));
        if !book.own(order.side).levels.contains_key(own) {
            assert(own == order.level());
        }
    }
}

/// A cancelled order never crosses the book.
pub proof fn law_cancelling_keeps_the_book_uncrossed(book: BookView, id: OrderId)
    requires
        book.wf(),
        uncrossed(book),
    ensures
        uncrossed(book.cancelled(id)),
{
    let post = book.cancelled(id);
    assert forall|bid: Price, ask: Price| #[trigger]
        post.bids.levels.contains_key(bid) && #[trigger] post.asks.levels.contains_key(
            ask,
        ) implies bid < ask by {
        assert(book.bids.levels.contains_key(bid));
        assert(book.asks.levels.contains_key(ask));
    }
}

/// The best bid is the highest bid and the best ask the lowest ask, and there is none only where no
/// order rests.
pub proof fn law_best_prices(book: BookView)
    requires
        book.wf(),
    ensures
        match book.bids.best {
            Some(best) => is_highest(book.bids.levels.dom(), best),
            None => book.bids.levels.dom() == Set::<Price>::empty(),
        },
        match book.asks.best {
            Some(best) => is_lowest(book.asks.levels.dom(), best),
            None => book.asks.levels.dom() == Set::<Price>::empty(),
        },
{
}

/// The best prices follow what comes in: after an order has come in they are the best ones there
/// are.
pub proof fn law_best_prices_after_insert(book: BookView, order: Order, post: BookView)
    requires
        book.wf(),
        settles(book.other(order.side), order),
        book.becomes(order, post),
    ensures
        post.bids.best == highest(post.bids.levels.dom()),
        post.asks.best == lowest(post.asks.levels.dom()),
{
    lemma_traded_wf(book, order);
    let left = order.holding(book.swept(order).remaining);
    if left.amount.positive() {
        let node = choose|node: NodeRef| #![trigger book.traded(order).rested(node, left)]
            !book.own(order.side).orders.contains_key(node) && post == book.traded(order).rested(
                node,
                left,
            );
        lemma_rested_wf(book.traded(order), node, left);
    }
}

/// The best prices follow what leaves: after an order was cancelled they are the best ones left.
pub proof fn law_best_prices_after_cancel(book: BookView, id: OrderId)
    requires
        book.wf(),
    ensures
        book.cancelled(id).bids.best == highest(book.cancelled(id).bids.levels.dom()),
        book.cancelled(id).asks.best == lowest(book.cancelled(id).asks.levels.dom()),
{
    lemma_cancelled_wf(book, id);
}

/// When the last order to buy at the best price leaves, the highest bid left is the best, or there
/// is none.
pub proof fn law_best_bid_after_removal(v: SideView, price: Price, node: NodeRef)
    requires
        v.wf(),
        belongs(v, Side::BUY),
        v.rests(price, node),
        v.best == highest(v.levels.dom()),
    ensures
        v.removed(price, node).best == highest(v.removed(price, node).levels.dom()),
{
    lemma_removed_best(v, Side::BUY, price, node);
}

/// When the last order to sell at the best price leaves, the lowest ask left is the best, or there
/// is none.
pub proof fn law_best_ask_after_removal(v: SideView, price: Price, node: NodeRef)
    requires
        v.wf(),
        belongs(v, Side::SELL),
        v.rests(price, node),
        v.best == lowest(v.levels.dom()),
    ensures
        v.removed(price, node).best == lowest(v.removed(price, node).levels.dom()),
{
    lemma_removed_best(v, Side::SELL, price, node);
}

/// No resting amount is infinite.
pub open spec fn finite_amounts(book: BookView) -> bool {
    &&& forall|n: NodeRef| #[trigger]
        book.bids.orders.contains_key(n) ==> !book.bids.orders[n].amount.infinite()
    &&& forall|n: NodeRef| #[trigger]
        book.asks.orders.contains_key(n) ==> !book.asks.orders[n].amount.infinite()
}

proof fn lemma_finite(
    v: SideView,
    index: Map<OrderId, OrderMapEntry>,
    taker: Order,
    remaining: Binary64,
)
    requires
        v.wf(),
        solid(v),
        forall|n: NodeRef| #[trigger]
            v.orders.contains_key(n) ==> !v.orders[n].amount.infinite(),
    ensures
        ({
            let s = sweep(v, index, taker, remaining);
            &&& forall|n: NodeRef| #[trigger]
                s.side.orders.contains_key(n) ==> !s.side.orders[n].amount.infinite()
            &&& !remaining.infinite() ==> !s.remaining.infinite()
        }),
    decreases v.orders.dom().len(),
{
    if trades(v, taker, remaining) {
        let maker = v.orders[first(v)];
        let amount = next_fill(v, taker, remaining).amount;
        lemma_first(v);
        lemma_trade(v, taker, remaining);
        lemma_minus(maker.amount, amount);
        if remaining.positive() {
            lemma_minus(remaining, amount);
        }
        if maker.amount.minus(amount).nonpositive() {
            lemma_used_up(v, taker, remaining);
            lemma_finite(
                v.removed(v.best->0, first(v)),
                index.remove(maker.id),
                taker,
                remaining.minus(amount),
            );
        }
    }
}

/// Where no amount is infinite, every order's trades come to an end, and no amount becomes
/// infinite.
pub proof fn law_finite_amounts_settle(book: BookView, order: Order, post: BookView)
    requires
        book.wf(),
        finite_amounts(book),
    ensures
        settles(book.other(order.side), order),
        !order.amount.infinite() && book.becomes(order, post) ==> finite_amounts(post),
{
    lemma_finite(book.other(order.side), book.index, order, order.amount);
}

proof fn lemma_nan(
    v: SideView,
    index: Map<OrderId, OrderMapEntry>,
    taker: Order,
    remaining: Binary64,
)
    requires
        v.wf(),
        solid(v),
        settles(v, taker.holding(remaining)),
        remaining.nan(),
    ensures
        sweep(v, index, taker, remaining).remaining.nan(),
    decreases v.orders.dom().len(),
{
    if trades(v, taker, remaining) {
        let maker = v.orders[first(v)];
        let amount = next_fill(v, taker, remaining).amount;
        lemma_first(v);
        if maker.amount.minus(amount).nonpositive() {
            lemma_used_up(v, taker, remaining);
            lemma_nan(
                v.removed(v.best->0, first(v)),
                index.remove(maker.id),
                taker,
                remaining.minus(amount),
            );
        }
    }
}

/// Only an order with a positive amount ever comes to rest; one of zero or less changes nothing at
/// all.
pub proof fn law_only_positive_amounts_rest(book: BookView, order: Order, post: BookView)
    requires
        book.wf(),
        settles(book.other(order.side), order),
        !order.amount.positive(),
        book.becomes(order, post),
    ensures
        post.own(order.side) == book.own(order.side),
        order.amount.nonpositive() ==> post == book && book.swept(order).fills.len() == 0,
{
    if order.amount.nan() {
        lemma_nan(book.other(order.side), book.index, order, order.amount);
    }
}

/// Orders that rest on the side of an incoming order stay as they are, and those at its price stay
/// in front of it.
pub proof fn law_own_side_stays(book: BookView, order: Order, post: BookView, node: NodeRef)
    requires
        book.wf(),
        book.becomes(order, post),
        book.own(order.side).orders.contains_key(node),
    ensures
        post.own(order.side).orders.contains_key(node),
        post.own(order.side).orders[node] == book.own(order.side).orders[node],
        ({
            let price = book.own(order.side).orders[node].level();
            book.own(order.side).levels[price].is_prefix_of(post.own(order.side).levels[price])
        }),
{
}

/// A level keeps the price it was opened at, whoever joins or leaves it: an incoming order sets
/// that of a level only where there was none.
pub proof fn law_levels_keep_their_quotes(
    book: BookView,
    order: Order,
    post: BookView,
    price: Price,
)
    requires
        book.wf(),
        settles(book.other(order.side), order),
        book.becomes(order, post),
    ensures
        post.other(order.side).levels.contains_key(price) ==> post.other(order.side).quotes[price]
            == book.other(order.side).quotes[price],
        post.own(order.side).levels.contains_key(price) ==> post.own(order.side).quotes[price]
            == if book.own(order.side).levels.contains_key(price) {
            book.own(order.side).quotes[price]
        } else {
            order.price
        },
{
    lemma_leftovers(book.other(order.side), book.index, order, order.amount);
}

/// Cancelling an order leaves the prices that the levels were opened at.
pub proof fn law_cancelling_keeps_the_quotes(book: BookView, id: OrderId, price: Price)
    requires
        book.wf(),
    ensures
        book.cancelled(id).bids.levels.contains_key(price) ==> book.cancelled(id).bids.quotes[price]
            == book.bids.quotes[price],
        book.cancelled(id).asks.levels.contains_key(price) ==> book.cancelled(id).asks.quotes[price]
            == book.asks.quotes[price],
{
}

/// It does not matter which of two leaves a queue first.
proof fn lemma_without_commutes(queue: Seq<NodeRef>, n: NodeRef, m: NodeRef)
    requires
        queue.no_duplicates(),
        queue.contains(n),
        queue.contains(m),
        n != m,
    ensures
        without(without(queue, n), m) == without(without(queue, m), n),
{
    let (i, j) = (queue.index_of(n), queue.index_of(m));
    assert(queue[i] == n && queue[j] == m);
    let (s, t) = (without(queue, n), without(queue, m));
    let j1 = if j < i { j } else { j - 1 };
    let i1 = if i < j { i } else { i - 1 };
    assert(s[j1] == m);
    assert(t[i1] == n);
    assert(s.index_of(m) == j1) by {
        assert(s.contains(m));
        let k = s.index_of(m);
        assert(queue[if k < i { k } else { k + 1 }] == m);
    }
    assert(t.index_of(n) == i1) by {
        assert(t.contains(n));
        let k = t.index_of(n);
        assert(queue[if k < j { k } else { k + 1 }] == n);
    }
    assert(without(s, m) =~= without(t, n));
}

proof fn lemma_removals_commute(
    v: SideView,
    side: Side,
    p: Price,
    n: NodeRef,
    q: Price,
    m: NodeRef,
)
    requires
        v.wf(),
        belongs(v, side),
        v.best == best_of(side, v.levels.dom()),
        v.rests(p, n),
        v.rests(q, m),
        n != m,
    ensures
        v.removed(p, n).removed(q, m) == v.removed(q, m).removed(p, n),
{
    let (a, b) = (v.removed(p, n), v.removed(q, m));
    let (x, y) = (a.removed(q, m), b.removed(p, n));
    lemma_others_rest(v, p, n, q, m);
    lemma_others_rest(v, q, m, p, n);
    assert(belongs(a, side) && belongs(b, side));
    assert(x.best == best_of(side, x.levels.dom())) by {
        lemma_removed_wf(v, p, n);
        lemma_removed_best(v, side, p, n);
        lemma_removed_best(a, side, q, m);
    }
    assert(y.best == best_of(side, y.levels.dom())) by {
        lemma_removed_wf(v, q, m);
        lemma_removed_best(v, side, q, m);
        lemma_removed_best(b, side, p, n);
    }
    assert(x.orders =~= y.orders);
    if p == q {
        lemma_without_commutes(v.levels[p], n, m);
    } else {
        assert(a.levels[q] == v.levels[q]);
        assert(b.levels[p] == v.levels[p]);
    }
    assert(x.levels =~= y.levels);
}

/// It does not matter which of two orders is cancelled first.
pub proof fn law_cancels_commute(book: BookView, a: OrderId, b: OrderId)
    requires
        book.wf(),
    ensures
        book.cancelled(a).cancelled(b) == book.cancelled(b).cancelled(a),
{
    if book.index.contains_key(a) && book.index.contains_key(b) && a != b {
        let (s, p, n) = book.index[a];
        let (t, q, m) = book.index[b];
        assert(book.index.remove(a).remove(b) =~= book.index.remove(b).remove(a));
        if s == t {
            lemma_removals_commute(book.own(s), s, p, n, q, m);
        }
    }
}

/// A new book has all that these laws keep.
pub proof fn law_new_book()
    ensures
        BookView::vacant().wf(),
        complete(BookView::vacant()),
        uncrossed(BookView::vacant()),
        finite_amounts(BookView::vacant()),
{
}

/// The resting orders that an incoming order trades with, one for each trade.
pub open spec fn makers(v: SideView, taker: Order, remaining: Binary64) -> Seq<NodeRef>
    decreases v.orders.dom().len(),
    when v.wf()
{
    if trades(v, taker, remaining) {
        let amount = next_fill(v, taker, remaining).amount;
        if v.orders[first(v)].amount.minus(amount).nonpositive() {
            seq![first(v)] + makers(
                v.removed(v.best->0, first(v)),
                taker,
                remaining.minus(amount),
            )
        } else {
            seq![first(v)]
        }
    } else {
        Seq::empty()
    }
}

/// What is left of an incoming order before its trades and after each of them.
pub open spec fn remainders(v: SideView, taker: Order, remaining: Binary64) -> Seq<Binary64>
    decreases v.orders.dom().len(),
    when v.wf()
{
    if trades(v, taker, remaining) {
        let amount = next_fill(v, taker, remaining).amount;
        if v.orders[first(v)].amount.minus(amount).nonpositive() {
            seq![remaining] + remainders(
                v.removed(v.best->0, first(v)),
                taker,
                remaining.minus(amount),
            )
        } else {
            seq![remaining, remaining.minus(amount)]
        }
    } else {
        seq![remaining]
    }
}

proof fn lemma_makers(
    v: SideView,
    index: Map<OrderId, OrderMapEntry>,
    taker: Order,
    remaining: Binary64,
)
    requires
        v.wf(),
        solid(v),
        settles(v, taker.holding(remaining)),
    ensures
        ({
            let s = sweep(v, index, taker, remaining);
            let nodes = makers(v, taker, remaining);
            let left = remainders(v, taker, remaining);
            &&& nodes.len() == s.fills.len()
            &&& left.len() == s.fills.len() + 1
            &&& left[0] == remaining
            &&& left.last() == s.remaining
            &&& nodes.no_duplicates()
            &&& forall|i: int|
                #![trigger s.fills[i]]
                #![trigger nodes[i]]
                0 <= i < s.fills.len() ==> {
                    &&& v.orders.contains_key(nodes[i])
                    &&& s.fills[i].side == taker.side
                    &&& s.fills[i].taker_id == taker.id
                    &&& s.fills[i].maker_id == v.orders[nodes[i]].id
                    &&& s.fills[i].price == v.quotes[v.orders[nodes[i]].level()]
                    &&& s.fills[i].amount == left[i].lesser(v.orders[nodes[i]].amount)
                    &&& left[i + 1] == left[i].minus(s.fills[i].amount)
                    &&& !left[i].nonpositive()
                    &&& i + 1 < s.fills.len() ==> s.fills[i].amount == v.orders[nodes[i]].amount
                }
        }),
    decreases v.orders.dom().len(),
{
    let s = sweep(v, index, taker, remaining);
    let nodes = makers(v, taker, remaining);
    let left = remainders(v, taker, remaining);
    if trades(v, taker, remaining) {
        let maker = v.orders[first(v)];
        let amount = next_fill(v, taker, remaining).amount;
        lemma_first(v);
        lemma_trade(v, taker, remaining);
        if maker.amount.minus(amount).nonpositive() {
            let w = v.removed(v.best->0, first(v));
            let index1 = index.remove(maker.id);
            let rest = sweep(w, index1, taker, remaining.minus(amount));
            let nodes1 = makers(w, taker, remaining.minus(amount));
            let left1 = remainders(w, taker, remaining.minus(amount));
            lemma_used_up(v, taker, remaining);
            lemma_makers(w, index1, taker, remaining.minus(amount));
            assert forall|i: int|
                #![trigger s.fills[i]]
                #![trigger nodes[i]]
                0 <= i < s.fills.len() implies {
                &&& v.orders.contains_key(nodes[i])
                &&& s.fills[i].side == taker.side
                &&& s.fills[i].taker_id == taker.id
                &&& s.fills[i].maker_id == v.orders[nodes[i]].id
                &&& s.fills[i].price == v.quotes[v.orders[nodes[i]].level()]
                &&& s.fills[i].amount == left[i].lesser(v.orders[nodes[i]].amount)
                &&& left[i + 1] == left[i].minus(s.fills[i].amount)
                &&& !left[i].nonpositive()
                &&& i + 1 < s.fills.len() ==> s.fills[i].amount == v.orders[nodes[i]].amount
            } by {
                if i > 0 {
                    assert(s.fills[i] == rest.fills[i - 1]);
                    assert(nodes[i] == nodes1[i - 1]);
                    assert(left[i] == left1[i - 1] && left[i + 1] == left1[i]);
                    assert(w.orders.contains_key(nodes[i]));
                    assert(w.levels.contains_key(w.orders[nodes[i]].level()));
                } else {
                    assert(left[1] == left1[0]);
                }
            }
            assert forall|i: int, j: int|
                0 <= i < nodes.len() && 0 <= j < nodes.len() && i != j implies nodes[i]
                != nodes[j] by {
                if i > 0 {
                    assert(nodes[i] == nodes1[i - 1] && w.orders.contains_key(nodes1[i - 1]));
                }
                if j > 0 {
                    assert(nodes[j] == nodes1[j - 1] && w.orders.contains_key(nodes1[j - 1]));
                }
            }
            assert(left.last() == left1.last());
        }
    }
}

/// Who has traded has left, but for one that was cut; who has not stays.
proof fn lemma_traders_leave(
    v: SideView,
    index: Map<OrderId, OrderMapEntry>,
    taker: Order,
    remaining: Binary64,
)
    requires
        v.wf(),
        solid(v),
        settles(v, taker.holding(remaining)),
    ensures
        ({
            let s = sweep(v, index, taker, remaining);
            let nodes = makers(v, taker, remaining);
            &&& forall|n: NodeRef| #[trigger]
                s.side.orders.contains_key(n) ==> v.orders.contains_key(n)
            &&& forall|n: NodeRef|
                v.orders.contains_key(n) && !#[trigger] nodes.contains(n)
                    ==> s.side.orders.contains_key(n) && s.side.orders[n] == v.orders[n]
            &&& forall|i: int|
                #![trigger nodes[i]]
                0 <= i < nodes.len() ==> if s.fills[i].amount == v.orders[nodes[i]].amount {
                    !s.side.orders.contains_key(nodes[i]) && !s.index.contains_key(
                        v.orders[nodes[i]].id,
                    )
                } else {
                    s.side.orders.contains_key(nodes[i]) && s.side.orders[nodes[i]]
                        == v.orders[nodes[i]].holding(
                        v.orders[nodes[i]].amount.minus(s.fills[i].amount),
                    )
                }
            &&& forall|id: OrderId| #[trigger]
                s.index.contains_key(id) ==> index.contains_key(id) && s.index[id] == index[id]
            &&& forall|id: OrderId| #[trigger]
                index.contains_key(id) && !s.index.contains_key(id) ==> exists|i: int|
                    0 <= i < nodes.len() && (#[trigger] s.fills[i]).maker_id == id
                        && s.fills[i].amount == v.orders[nodes[i]].amount
        }),
    decreases v.orders.dom().len(),
{
    let s = sweep(v, index, taker, remaining);
    let nodes = makers(v, taker, remaining);
    lemma_makers(v, index, taker, remaining);
    if trades(v, taker, remaining) {
        let maker = v.orders[first(v)];
        let amount = next_fill(v, taker, remaining).amount;
        lemma_first(v);
        lemma_trade(v, taker, remaining);
        assert(nodes[0] == first(v));
        assert(s.fills[0].amount == amount);
        if maker.amount.minus(amount).nonpositive() {
            let w = v.removed(v.best->0, first(v));
            let index1 = index.remove(maker.id);
            let left = remaining.minus(amount);
            let rest = sweep(w, index1, taker, left);
            let nodes1 = makers(w, taker, left);
            lemma_used_up(v, taker, remaining);
            lemma_makers(w, index1, taker, left);
            lemma_traders_leave(w, index1, taker, left);
            assert forall|n: NodeRef|
                v.orders.contains_key(n) && !#[trigger] nodes.contains(
                    n,
                ) implies s.side.orders.contains_key(n) && s.side.orders[n] == v.orders[n] by {
                if nodes1.contains(n) {
                    let j = nodes1.index_of(n);
                    assert(nodes[j + 1] == n);
                }
                assert(nodes.contains(nodes[0]));
            }
            assert forall|i: int|
                #![trigger nodes[i]]
                0 <= i < nodes.len() implies if s.fills[i].amount == v.orders[nodes[i]].amount {
                !s.side.orders.contains_key(nodes[i]) && !s.index.contains_key(
                    v.orders[nodes[i]].id,
                )
            } else {
                s.side.orders.contains_key(nodes[i]) && s.side.orders[nodes[i]]
                    == v.orders[nodes[i]].holding(
                    v.orders[nodes[i]].amount.minus(s.fills[i].amount),
                )
            } by {
                if i > 0 {
                    assert(nodes[i] == nodes1[i - 1]);
                    assert(s.fills[i] == rest.fills[i - 1]);
                }
            }
            assert forall|id: OrderId| #[trigger]
                index.contains_key(id) && !s.index.contains_key(id) implies exists|i: int|
                0 <= i < nodes.len() && (#[trigger] s.fills[i]).maker_id == id
                    && s.fills[i].amount == v.orders[nodes[i]].amount by {
                if id == maker.id {
                    assert(s.fills[0].maker_id == id);
                } else {
                    assert(index1.contains_key(id));
                    let i = choose|i: int|
                        0 <= i < nodes1.len() && (#[trigger] rest.fills[i]).maker_id == id
                            && rest.fills[i].amount == w.orders[nodes1[i]].amount;
                    assert(s.fills[i + 1] == rest.fills[i]);
                    assert(nodes[i + 1] == nodes1[i]);
                }
            }
        } else {
            assert(nodes.contains(nodes[0]));
        }
    }
}

/// Whoever has not traded yet stands behind each one that trades: at a price that is no better,
/// and at the same price further back in the queue.
proof fn lemma_turns(
    v: SideView,
    side: Side,
    index: Map<OrderId, OrderMapEntry>,
    taker: Order,
    remaining: Binary64,
    i: int,
    n: NodeRef,
)
    requires
        v.wf(),
        solid(v),
        belongs(v, side),
        settles(v, taker.holding(remaining)),
        v.best == best_of(side, v.levels.dom()),
        0 <= i < makers(v, taker, remaining).len(),
        v.orders.contains_key(n),
        forall|j: int| 0 <= j <= i ==> #[trigger] makers(v, taker, remaining)[j] != n,
    ensures
        ({
            let m = makers(v, taker, remaining)[i];
            let (p, q) = (v.orders[m].level(), v.orders[n].level());
            &&& !improves(side, q, p)
            &&& p == q ==> v.levels[p].index_of(m) < v.levels[p].index_of(n)
        }),
    decreases v.orders.dom().len(),
{
    let nodes = makers(v, taker, remaining);
    let price = v.best->0;
    let maker = v.orders[first(v)];
    let amount = next_fill(v, taker, remaining).amount;
    lemma_first(v);
    lemma_trade(v, taker, remaining);
    lemma_best_of(side, v.levels.dom(), price);
    assert(nodes[0] == first(v));
    if i == 0 {
        if v.orders[n].level() == price {
            assert(v.levels[price].contains(n));
            let k = v.levels[price].index_of(n);
            assert(v.levels[price][k] == n);
        }
    } else {
        let w = v.removed(price, first(v));
        let left = remaining.minus(amount);
        let nodes1 = makers(w, taker, left);
        lemma_used_up(v, taker, remaining);
        lemma_removed_best(v, side, price, first(v));
        lemma_makers(w, index.remove(maker.id), taker, left);
        assert(w.orders.contains_key(n));
        assert forall|j: int| 0 <= j <= i - 1 implies #[trigger] nodes1[j] != n by {
            assert(nodes[j + 1] == nodes1[j]);
        }
        lemma_turns(w, side, index.remove(maker.id), taker, left, i - 1, n);
        let m = nodes[i];
        assert(m == nodes1[i - 1]);
        assert(w.orders.contains_key(m));
        let p = v.orders[m].level();
        if p == v.orders[n].level() {
            let (a, b) = (w.levels[p].index_of(m), w.levels[p].index_of(n));
            assert(w.levels[p].contains(m) && w.levels[p].contains(n));
            assert(w.levels[p][a] == m && w.levels[p][b] == n);
            let by: int = if p == price { 1 } else { 0 };
            assert(v.levels[p][a + by] == m && v.levels[p][b + by] == n);
            assert(v.levels[p].contains(m) && v.levels[p].contains(n));
            assert(v.levels[p].index_of(m) == a + by && v.levels[p].index_of(n) == b + by);
        }
    }
}

/// No order to buy trades above its price, and none to sell below it. Prices that are not numbers
/// count as above all numbers.
pub proof fn law_trades_keep_the_limit(book: BookView, order: Order, fills: Seq<Fill>, i: int)
    requires
        book.wf(),
        settles(book.other(order.side), order),
        fills == book.swept(order).fills,
        0 <= i < fills.len(),
    ensures
        order.side == Side::BUY && !order.price.nan() ==> !fills[i].price.nan()
            && fills[i].price.value() <= order.price.value(),
        order.side == Side::SELL && !fills[i].price.nan() ==> !order.price.nan()
            && order.price.value() <= fills[i].price.value(),
{
    lemma_fills(book.other(order.side), book.index, order, order.amount);
    lemma_price_key(order.price, fills[i].price);
    lemma_price_key(fills[i].price, order.price);
}

/// Every trade is between the incoming order and one that rests on the other side, no two with the
/// same one. It carries both ids, the side of the incoming order and the price that the level of
/// the other was opened at, and is for the lesser of what the two have left. All but the last use
/// up the resting order, and each takes its amount off the incoming one, which starts out with its
/// own and still has something left.
pub proof fn law_trades_pair_orders(book: BookView, order: Order, fills: Seq<Fill>, i: int, j: int)
    requires
        book.wf(),
        settles(book.other(order.side), order),
        fills == book.swept(order).fills,
    ensures
        ({
            let v = match order.side {
                Side::BUY => book.asks,
                Side::SELL => book.bids,
            };
            let nodes = makers(v, order, order.amount);
            let left = remainders(v, order, order.amount);
            let maker = v.orders[nodes[i]];
            &&& nodes.len() == fills.len()
            &&& left.len() == fills.len() + 1
            &&& left[0] == order.amount
            &&& 0 <= i < fills.len() && 0 <= j < fills.len() && i != j ==> nodes[i] != nodes[j]
            &&& 0 <= i < fills.len() ==> {
                &&& v.orders.contains_key(nodes[i])
                &&& fills[i].side == order.side
                &&& fills[i].taker_id == order.id
                &&& fills[i].maker_id == maker.id
                &&& fills[i].price == v.quotes[price_key(maker.price)]
                &&& fills[i].amount == left[i].lesser(maker.amount)
                &&& i + 1 < fills.len() ==> fills[i].amount == maker.amount
                &&& left[i + 1] == left[i].minus(fills[i].amount)
                &&& left[i].nan() || left[i].value() > 0
                &&& fills[i].amount.value() > 0
            }
        }),
{
    let v = book.other(order.side);
    let left = remainders(v, order, order.amount);
    lemma_makers(v, book.index, order, order.amount);
    lemma_fills(v, book.index, order, order.amount);
    if 0 <= i < fills.len() {
        assert(fills[i].amount.positive());
        assert(!left[i].nonpositive());
    }
}

/// An incoming order trades with those that rest on the other side in their turn: whoever has not
/// traded when `i` trades, later or not at all, has no better price than `i`, and at the same price
/// came to the queue after `i`. Better is lower for an order to buy, and higher for one to sell.
pub proof fn law_turns_are_kept(
    book: BookView,
    order: Order,
    fills: Seq<Fill>,
    v: SideView,
    i: int,
    node: NodeRef,
)
    requires
        book.wf(),
        settles(book.other(order.side), order),
        fills == book.swept(order).fills,
        order.side == Side::BUY ==> v == book.asks,
        order.side == Side::SELL ==> v == book.bids,
        0 <= i < fills.len(),
        v.orders.contains_key(node),
        forall|j: int| 0 <= j <= i ==> #[trigger] makers(v, order, order.amount)[j] != node,
    ensures
        ({
            let first = makers(v, order, order.amount)[i];
            let (a, b) = (v.orders[first].price, v.orders[node].price);
            let queue = v.levels[price_key(a)];
            &&& order.side == Side::BUY && !b.nan() ==> !a.nan() && a.value() <= b.value()
            &&& order.side == Side::SELL && !a.nan() ==> !b.nan() && b.value() <= a.value()
            &&& a.nan() && b.nan() || !a.nan() && !b.nan() && a.value() == b.value()
                ==> queue.index_of(first) < queue.index_of(node)
        }),
{
    let side = match order.side {
        Side::BUY => Side::SELL,
        Side::SELL => Side::BUY,
    };
    lemma_makers(v, book.index, order, order.amount);
    lemma_turns(v, side, book.index, order, order.amount, i, node);
    let maker = v.orders[makers(v, order, order.amount)[i]];
    lemma_price_key(maker.price, v.orders[node].price);
    lemma_price_key(v.orders[node].price, maker.price);
}

/// An incoming order goes on trading for as long as it has something left: then every order that
/// still rests on the other side is beyond its price, above it for an order to buy and below it for
/// one to sell.
pub proof fn law_no_trade_is_missed(book: BookView, order: Order, post: BookView, node: NodeRef)
    requires
        book.wf(),
        settles(book.other(order.side), order),
        book.becomes(order, post),
    ensures
        ({
            let (v, w) = match order.side {
                Side::BUY => (book.asks, post.asks),
                Side::SELL => (book.bids, post.bids),
            };
            let left = remainders(v, order, order.amount).last();
            let price = w.orders[node].price;
            (left.nan() || left.value() > 0) && w.orders.contains_key(node) ==> {
                &&& order.side == Side::BUY ==> !order.price.nan() && (price.nan()
                    || order.price.value() < price.value())
                &&& order.side == Side::SELL ==> !price.nan() && (order.price.nan()
                    || price.value() < order.price.value())
            }
        }),
{
    let side = match order.side {
        Side::BUY => Side::SELL,
        Side::SELL => Side::BUY,
    };
    let v = book.other(order.side);
    let s = book.swept(order);
    lemma_makers(v, book.index, order, order.amount);
    lemma_leftovers(v, book.index, order, order.amount);
    lemma_traded_wf(book, order);
    if s.side.orders.contains_key(node) {
        let price = s.side.orders[node].price;
        lemma_best_of(side, s.side.levels.dom(), price_key(price));
        lemma_price_key(price, order.price);
        lemma_price_key(order.price, price);
    }
}

/// What the trades of an incoming order leave of the other side: who did not trade stays as it was,
/// who was used up is gone, and who was not keeps the rest of its amount. Nobody is new there, and
/// nobody changes places.
pub proof fn law_what_trades_leave(
    book: BookView,
    order: Order,
    fills: Seq<Fill>,
    post: BookView,
    i: int,
    node: NodeRef,
    price: Price,
)
    requires
        book.wf(),
        settles(book.other(order.side), order),
        fills == book.swept(order).fills,
        book.becomes(order, post),
    ensures
        ({
            let (v, w) = match order.side {
                Side::BUY => (book.asks, post.asks),
                Side::SELL => (book.bids, post.bids),
            };
            let nodes = makers(v, order, order.amount);
            let maker = v.orders[nodes[i]];
            &&& w.orders.contains_key(node) ==> v.orders.contains_key(node)
            &&& v.orders.contains_key(node) && !nodes.contains(node) ==> w.orders.contains_key(node)
                && w.orders[node] == v.orders[node]
            &&& 0 <= i < fills.len() && fills[i].amount == maker.amount
                ==> !w.orders.contains_key(nodes[i])
            &&& 0 <= i < fills.len() && fills[i].amount != maker.amount ==> {
                &&& w.orders.contains_key(nodes[i])
                &&& w.orders[nodes[i]].id == maker.id
                &&& w.orders[nodes[i]].price == maker.price
                &&& w.orders[nodes[i]].side == maker.side
                &&& w.orders[nodes[i]].amount == maker.amount.minus(fills[i].amount)
            }
            &&& w.levels.contains_key(price) ==> {
                &&& v.levels.contains_key(price)
                &&& w.levels[price].is_suffix_of(v.levels[price])
                &&& w.quotes[price] == v.quotes[price]
            }
        }),
{
    let v = book.other(order.side);
    lemma_makers(v, book.index, order, order.amount);
    lemma_traders_leave(v, book.index, order, order.amount);
    lemma_leftovers(v, book.index, order, order.amount);
}

/// What is left of an incoming order after its trades comes to rest on its own side, if there were
/// trades or not: one more order, with the id, the price and the side it came with, last in the
/// queue of its price, and its id leads there. If nothing is left, its own side is as it was.
pub proof fn law_what_is_left_rests(book: BookView, order: Order, post: BookView, price: Price)
    requires
        book.wf(),
        settles(book.other(order.side), order),
        book.becomes(order, post),
    ensures
        ({
            let (u, v, w) = match order.side {
                Side::BUY => (book.bids, book.asks, post.bids),
                Side::SELL => (book.asks, book.bids, post.asks),
            };
            let left = remainders(v, order, order.amount).last();
            let key = price_key(order.price);
            let node = post.index[order.id].2;
            let queue = if u.levels.contains_key(key) {
                u.levels[key]
            } else {
                Seq::empty()
            };
            if !left.nan() && left.value() > 0 {
                &&& post.index.contains_key(order.id)
                &&& post.index[order.id] == (order.side, key, node)
                &&& !u.orders.contains_key(node)
                &&& w.orders.contains_key(node)
                &&& w.orders[node].id == order.id
                &&& w.orders[node].price == order.price
                &&& w.orders[node].amount == left
                &&& w.orders[node].side == order.side
                &&& w.orders.remove(node) == u.orders
                &&& w.levels.contains_key(key) && w.levels[key] == queue.push(node)
                &&& w.quotes[key] == if u.levels.contains_key(key) {
                    u.quotes[key]
                } else {
                    order.price
                }
                &&& price != key ==> {
                    &&& w.levels.contains_key(price) <==> u.levels.contains_key(price)
                    &&& u.levels.contains_key(price) ==> w.levels[price] == u.levels[price]
                        && w.quotes[price] == u.quotes[price]
                }
            } else {
                w == u
            }
        }),
{
    let v = book.other(order.side);
    let u = book.own(order.side);
    lemma_makers(v, book.index, order, order.amount);
    let rest = order.holding(book.swept(order).remaining);
    if rest.amount.positive() {
        let node = choose|node: NodeRef| #![trigger book.traded(order).rested(node, rest)]
            !u.orders.contains_key(node) && post == book.traded(order).rested(node, rest);
        assert(post.index[order.id] == (order.side, order.level(), node));
        assert(post.own(order.side).orders.remove(node) =~= u.orders);
        law_joining(u, node, rest, price);
    }
}

/// What an incoming order does to the index: the ids of those that it used up lead nowhere, its own
/// leads to what is left of it, if anything is, and all others lead where they led.
pub proof fn law_index_follows_the_trades(
    book: BookView,
    order: Order,
    fills: Seq<Fill>,
    post: BookView,
    id: OrderId,
    i: int,
)
    requires
        book.wf(),
        settles(book.other(order.side), order),
        fills == book.swept(order).fills,
        book.becomes(order, post),
    ensures
        ({
            let v = match order.side {
                Side::BUY => book.asks,
                Side::SELL => book.bids,
            };
            let nodes = makers(v, order, order.amount);
            let left = remainders(v, order, order.amount).last();
            let rests = !left.nan() && left.value() > 0;
            &&& rests && id == order.id ==> post.index.contains_key(id)
            &&& !(rests && id == order.id) ==> {
                &&& post.index.contains_key(id) ==> book.index.contains_key(id) && post.index[id]
                    == book.index[id]
                &&& 0 <= i < fills.len() && fills[i].maker_id == id && fills[i].amount
                    == v.orders[nodes[i]].amount ==> !post.index.contains_key(id)
                &&& book.index.contains_key(id) && !post.index.contains_key(id) ==> exists|j: int|
                    0 <= j < fills.len() && (#[trigger] fills[j]).maker_id == id && fills[j].amount
                        == v.orders[nodes[j]].amount
            }
        }),
{
    let v = book.other(order.side);
    lemma_makers(v, book.index, order, order.amount);
    lemma_traders_leave(v, book.index, order, order.amount);
}

/// Amounts that are whole numbers of one unit, and not more than `2^53` of them, move as a whole:
/// what an incoming order does not trade is added to its own side, to the last digit.
pub proof fn law_own_side_gains_what_is_not_traded(
    book: BookView,
    order: Order,
    fills: Seq<Fill>,
    post: BookView,
    v: SideView,
    k: nat,
)
    requires
        book.wf(),
        fills == book.swept(order).fills,
        book.becomes(order, post),
        order.side == Side::BUY ==> v == book.asks,
        order.side == Side::SELL ==> v == book.bids,
        on_grid(order.amount, k),
        forall|n: NodeRef| #[trigger] v.orders.contains_key(n) ==> on_grid(v.orders[n].amount, k),
    ensures
        ({
            let (u, w) = match order.side {
                Side::BUY => (book.bids, post.bids),
                Side::SELL => (book.asks, post.asks),
            };
            holdings(w.orders) == holdings(u.orders) + order.amount.value() - volume(fills)
        }),
{
    let u = book.own(order.side);
    lemma_conserved(v, book.index, order, order.amount, k);
    let left = order.holding(book.swept(order).remaining);
    lemma_sign(left.amount);
    if left.amount.positive() {
        let node = choose|node: NodeRef| #![trigger book.traded(order).rested(node, left)]
            !u.orders.contains_key(node) && post == book.traded(order).rested(node, left);
        let w = post.own(order.side);
        assert(w.orders == u.orders.insert(node, left));
        lemma_holdings(w.orders, node);
        assert(w.orders.remove(node) =~= u.orders);
    }
}

/// When the trades of an order come to an end: always, but for an infinite amount, or one that is
/// no number, that may trade with an infinite one.
pub proof fn law_when_trades_end(book: BookView, order: Order, v: SideView)
    requires
        book.wf(),
        order.side == Side::BUY ==> v == book.asks,
        order.side == Side::SELL ==> v == book.bids,
    ensures
        !settles(book.other(order.side), order) <==> {
            &&& order.amount.nan() || order.amount.bits == 0x7ff0_0000_0000_0000
            &&& exists|n: NodeRef| #[trigger]
                v.orders.contains_key(n) && v.orders[n].amount.bits == 0x7ff0_0000_0000_0000 && (
                order.side == Side::BUY ==> order.price.nan() || !v.orders[n].price.nan()
                    && v.orders[n].price.value() <= order.price.value()) && (order.side
                    == Side::SELL ==> v.orders[n].price.nan() || !order.price.nan()
                    && order.price.value() <= v.orders[n].price.value())
        },
{
    law_patterns(order.amount);
    assert forall|n: NodeRef| #[trigger] v.orders.contains_key(n) implies {
        let (price, limit) = (v.orders[n].price, order.price);
        &&& v.levels.contains_key(v.orders[n].level())
        &&& v.orders[n].amount.infinite() <==> v.orders[n].amount.bits == 0x7ff0_0000_0000_0000
        &&& crosses(Side::BUY, order.level(), v.orders[n].level()) <==> limit.nan() || !price.nan()
            && price.value() <= limit.value()
        &&& crosses(Side::SELL, order.level(), v.orders[n].level()) <==> price.nan() || !limit.nan()
            && limit.value() <= price.value()
    } by {
        law_patterns(v.orders[n].amount);
        lemma_price_key(v.orders[n].price, order.price);
        lemma_price_key(order.price, v.orders[n].price);
    }
}

/// What a book is: both sides sound, with bids and nothing else on the one and asks on the other,
/// each with something left, and an index that leads from ids to resting orders with these ids.
pub proof fn law_book_is_sound(book: BookView, node: NodeRef, id: OrderId)
    requires
        book.wf(),
    ensures
        book.bids.wf(),
        book.asks.wf(),
        book.bids.orders.contains_key(node) ==> book.bids.orders[node].side == Side::BUY && 0
            < book.bids.orders[node].amount.bits <= 0x7ff0_0000_0000_0000,
        book.asks.orders.contains_key(node) ==> book.asks.orders[node].side == Side::SELL && 0
            < book.asks.orders[node].amount.bits <= 0x7ff0_0000_0000_0000,
        book.index.contains_key(id) ==> {
            let (side, price, n) = book.index[id];
            let v = match side {
                Side::BUY => book.bids,
                Side::SELL => book.asks,
            };
            v.orders.contains_key(n) && v.orders[n].id == id && price_key(v.orders[n].price)
                == price
        },
{
    if book.bids.orders.contains_key(node) {
        law_patterns(book.bids.orders[node].amount);
    }
    if book.asks.orders.contains_key(node) {
        law_patterns(book.asks.orders[node].amount);
    }
    if book.index.contains_key(id) {
        let (side, price, n) = book.index[id];
        lemma_removed_wf(book.own(side), price, n);
    }
}

/// No bid has a higher price than the best bid, and no ask a lower one than the best ask.
pub proof fn law_nothing_beats_the_best(book: BookView, node: NodeRef)
    requires
        book.wf(),
    ensures
        book.bids.orders.contains_key(node) ==> {
            let (price, best) = (book.bids.orders[node].price, book.bids.quotes[book.bids.best->0]);
            &&& book.bids.best is Some
            &&& best.nan() || !price.nan() && price.value() <= best.value()
        },
        book.asks.orders.contains_key(node) ==> {
            let (price, best) = (book.asks.orders[node].price, book.asks.quotes[book.asks.best->0]);
            &&& book.asks.best is Some
            &&& price.nan() || !best.nan() && best.value() <= price.value()
        },
{
    if book.bids.orders.contains_key(node) {
        let price = book.bids.orders[node].price;
        let best = book.bids.quotes[book.bids.best->0];
        lemma_best_of(Side::BUY, book.bids.levels.dom(), price_key(price));
        lemma_price_key(best, price);
    }
    if book.asks.orders.contains_key(node) {
        let price = book.asks.orders[node].price;
        let best = book.asks.quotes[book.asks.best->0];
        lemma_best_of(Side::SELL, book.asks.levels.dom(), price_key(price));
        lemma_price_key(price, best);
    }
}

/// What cancelling does: the order that the id leads to leaves its queue, in which the others keep
/// their places, and the id leads nowhere. Everything else is as it was, and all of it if the id
/// led nowhere.
pub proof fn law_cancelling(book: BookView, id: OrderId, price: Price)
    requires
        book.wf(),
    ensures
        ({
            let post = book.cancelled(id);
            let (side, at, node) = book.index[id];
            let (u, w) = match side {
                Side::BUY => (book.bids, post.bids),
                Side::SELL => (book.asks, post.asks),
            };
            let k = u.levels[at].index_of(node);
            let queue = u.levels[at].take(k) + u.levels[at].skip(k + 1);
            if book.index.contains_key(id) {
                &&& u.orders.contains_key(node) && u.orders[node].id == id
                &&& w.orders == u.orders.remove(node)
                &&& w.levels.contains_key(at) <==> queue.len() > 0
                &&& queue.len() > 0 ==> w.levels[at] == queue && w.quotes[at] == u.quotes[at]
                &&& price != at ==> {
                    &&& w.levels.contains_key(price) <==> u.levels.contains_key(price)
                    &&& u.levels.contains_key(price) ==> w.levels[price] == u.levels[price]
                        && w.quotes[price] == u.quotes[price]
                }
                &&& side == Side::BUY ==> post.asks == book.asks
                &&& side == Side::SELL ==> post.bids == book.bids
                &&& post.index == book.index.remove(id)
            } else {
                post == book
            }
        }),
{
    if book.index.contains_key(id) {
        let (side, at, node) = book.index[id];
        lemma_removed_wf(book.own(side), at, node);
        law_leaving(book.own(side), at, node, price);
    }
}

/// A new book is empty.
pub proof fn law_new_book_is_empty(price: Price, node: NodeRef, id: OrderId)
    ensures
        ({
            let book = BookView::vacant();
            &&& !book.bids.orders.contains_key(node) && !book.asks.orders.contains_key(node)
            &&& !book.bids.levels.contains_key(price) && !book.asks.levels.contains_key(price)
            &&& book.bids.best is None && book.asks.best is None
            &&& !book.index.contains_key(id)
        }),
{
}

} // verus!

//! The order book: two sides, and an index of the resting orders by their id.
use crate::binary64::{price_of, Binary64};
use crate::matching::{
    first, lemma_first, lemma_trade, lemma_used_up, next_fill, settles, side_settles, solid, sweep,
    sweep_side, trades, Fill, OrderMapEntry, Sweep,
};
use crate::order::{Order, OrderId, Price, Side};
use crate::side::{
    best_of, highest, lemma_best_of, lemma_best_of_is, lemma_inserted_wf, lemma_reduced_wf,
    lemma_removed_wf, lowest, NodeRef, OrderBookSide, SideView,
};
use std::collections::HashMap;
use vstd::prelude::*;

verus! {

/// What a book holds.
#[verifier::ext_equal]
pub struct BookView {
    pub bids: SideView,
    pub asks: SideView,
    /// Where the orders rest that can be found by their id.
    pub index: Map<OrderId, OrderMapEntry>,
}

/// All orders that rest here were made for `side`.
pub open spec fn belongs(v: SideView, side: Side) -> bool {
    forall|n: NodeRef| #[trigger] v.orders.contains_key(n) ==> v.orders[n].side == side
}

/// What the index says of `side` is so: each entry leads to a resting order with that id.
pub open spec fn indexed(
    v: SideView,
    side: Side,
    index: Map<OrderId, OrderMapEntry>,
) -> bool {
    forall|id: OrderId| #[trigger]
        index.contains_key(id) && index[id].0 == side ==> {
            &&& v.rests(index[id].1, index[id].2)
            &&& v.orders[index[id].2].id == id
        }
}

impl BookView {
    /// A book with nothing in it.
    pub open spec fn vacant() -> BookView {
        BookView { bids: SideView::vacant(), asks: SideView::vacant(), index: Map::empty() }
    }

    /// The side where orders made for `side` rest.
    pub open spec fn own(self, side: Side) -> SideView {
        match side {
            Side::BUY => self.bids,
            Side::SELL => self.asks,
        }
    }

    /// The side that orders made for `side` trade with.
    pub open spec fn other(self, side: Side) -> SideView {
        match side {
            Side::BUY => self.asks,
            Side::SELL => self.bids,
        }
    }

    /// Both sides are sound and hold only orders that belong there and have something left, the
    /// best bid is the highest one and the best ask the lowest, and the index leads to where it
    /// says.
    pub open spec fn wf(self) -> bool {
        &&& self.bids.wf() && solid(self.bids) && belongs(self.bids, Side::BUY)
        &&& self.asks.wf() && solid(self.asks) && belongs(self.asks, Side::SELL)
        &&& self.bids.best == highest(self.bids.levels.dom())
        &&& self.asks.best == lowest(self.asks.levels.dom())
        &&& indexed(self.bids, Side::BUY, self.index)
        &&& indexed(self.asks, Side::SELL, self.index)
    }

    /// What comes of the trades of an incoming order.
    pub open spec fn swept(self, order: Order) -> Sweep {
        sweep(self.other(order.side), self.index, order, order.amount)
    }

    /// The book after the trades of an incoming order, before what is left of it comes to rest.
    pub open spec fn traded(self, order: Order) -> BookView {
        let s = self.swept(order);
        match order.side {
            Side::BUY => BookView { asks: s.side, index: s.index, ..self },
            Side::SELL => BookView { bids: s.side, index: s.index, ..self },
        }
    }

    /// The book once `order` has come to rest as `node`.
    pub open spec fn rested(self, node: NodeRef, order: Order) -> BookView {
        let index = self.index.insert(order.id, (order.side, order.level(), node));
        match order.side {
            Side::BUY => BookView { bids: self.bids.inserted(node, order), index, ..self },
            Side::SELL => BookView { asks: self.asks.inserted(node, order), index, ..self },
        }
    }

    /// `post` is what becomes of the book when `order` comes in: it trades, and what is left of it
    /// comes to rest under a handle that no resting order has.
    pub open spec fn becomes(self, order: Order, post: BookView) -> bool {
        let left = order.holding(self.swept(order).remaining);
        if left.amount.positive() {
            exists|node: NodeRef| #![trigger self.traded(order).rested(node, left)]
                !self.own(order.side).orders.contains_key(node) && post == self.traded(
                    order,
                ).rested(node, left)
        } else {
            post == self.traded(order)
        }
    }

    /// The book once the order that `id` leads to, if any, is taken out.
    pub open spec fn cancelled(self, id: OrderId) -> BookView {
        if self.index.contains_key(id) {
            let (side, price, node) = self.index[id];
            let index = self.index.remove(id);
            match side {
                Side::BUY => BookView { bids: self.bids.removed(price, node), index, ..self },
                Side::SELL => BookView { asks: self.asks.removed(price, node), index, ..self },
            }
        } else {
            self
        }
    }
}

/// Taking out one order leaves the others where they are.
pub proof fn lemma_others_rest(v: SideView, price: Price, node: NodeRef, p: Price, n: NodeRef)
    requires
        v.wf(),
        v.rests(price, node),
        v.rests(p, n),
        n != node,
    ensures
        v.removed(price, node).rests(p, n),
        v.removed(price, node).orders.contains_key(n),
        v.removed(price, node).orders[n] == v.orders[n],
{
    lemma_removed_wf(v, price, node);
    lemma_removed_wf(v, p, n);
}

/// The best price is the best one there is, and stays so when an order leaves.
pub proof fn lemma_removed_best(v: SideView, side: Side, price: Price, node: NodeRef)
    requires
        v.wf(),
        belongs(v, side),
        v.rests(price, node),
        v.best == best_of(side, v.levels.dom()),
    ensures
        v.removed(price, node).best == best_of(side, v.removed(price, node).levels.dom()),
{
    let w = v.removed(price, node);
    lemma_removed_wf(v, price, node);
    lemma_best_of(side, v.levels.dom(), price);
    if w.levels.contains_key(price) {
        assert(w.levels.dom() =~= v.levels.dom());
    } else if v.best != Some(price) {
        lemma_best_of_is(side, w.levels.dom(), v.best->0);
    }
}

/// The best price is the best one there is, and stays so when an order comes to rest.
proof fn lemma_inserted_best(v: SideView, node: NodeRef, order: Order)
    requires
        v.wf(),
        v.best == best_of(order.side, v.levels.dom()),
    ensures
        v.inserted(node, order).best == best_of(
            order.side,
            v.inserted(node, order).levels.dom(),
        ),
{
    let w = v.inserted(node, order);
    let price = order.level();
    if v.levels.contains_key(price) {
        assert(w.levels.dom() =~= v.levels.dom());
    } else {
        if v.best is Some {
            lemma_best_of(order.side, v.levels.dom(), v.best->0);
        }
        assert(w.levels.contains_key(price));
        lemma_best_of_is(order.side, w.levels.dom(), w.best->0);
    }
}

/// The trades of an incoming order keep what a side of the book rests on.
proof fn lemma_sweep_keeps(
    v: SideView,
    side: Side,
    index: Map<OrderId, OrderMapEntry>,
    taker: Order,
    remaining: Binary64,
)
    requires
        v.wf(),
        solid(v),
        belongs(v, side),
        indexed(v, side, index),
        v.best == best_of(side, v.levels.dom()),
        settles(v, taker.holding(remaining)),
    ensures
        ({
            let s = sweep(v, index, taker, remaining);
            &&& s.side.wf()
            &&& solid(s.side)
            &&& belongs(s.side, side)
            &&& indexed(s.side, side, s.index)
            &&& s.index.submap_of(index)
            &&& s.side.best == best_of(side, s.side.levels.dom())
        }),
    decreases v.orders.dom().len(),
{
    if trades(v, taker, remaining) {
        lemma_first(v);
        lemma_trade(v, taker, remaining);
        let node = first(v);
        let price = v.best->0;
        let maker = v.orders[node];
        let fill = next_fill(v, taker, remaining);
        let left = maker.amount.minus(fill.amount);
        if left.nonpositive() {
            let w = v.removed(price, node);
            let index1 = index.remove(maker.id);
            lemma_used_up(v, taker, remaining);
            assert forall|id: OrderId| #[trigger]
                index1.contains_key(id) && index1[id].0 == side implies {
                &&& w.rests(index1[id].1, index1[id].2)
                &&& w.orders[index1[id].2].id == id
            } by {
                assert(index.contains_key(id));
                lemma_others_rest(v, price, node, index[id].1, index[id].2);
            }
            lemma_removed_best(v, side, price, node);
            lemma_sweep_keeps(w, side, index1, taker, remaining.minus(fill.amount));
            let s = sweep(w, index1, taker, remaining.minus(fill.amount));
            assert forall|id: OrderId| #[trigger]
                s.index.dom().contains(id) implies index.dom().contains(id) && s.index[id]
                == index[id] by {
                assert(index1.dom().contains(id));
            }
        } else {
            lemma_reduced_wf(v, node, left);
        }
    }
}

/// A trading order leaves the book sound.
pub proof fn lemma_traded_wf(book: BookView, order: Order)
    requires
        book.wf(),
        settles(book.other(order.side), order),
    ensures
        book.traded(order).wf(),
{
    let side = match order.side {
        Side::BUY => Side::SELL,
        Side::SELL => Side::BUY,
    };
    let s = book.swept(order);
    lemma_sweep_keeps(book.other(order.side), side, book.index, order, order.amount);
    let own = book.own(order.side);
    assert forall|id: OrderId| #[trigger]
        s.index.contains_key(id) && s.index[id].0 == order.side implies {
        &&& own.rests(s.index[id].1, s.index[id].2)
        &&& own.orders[s.index[id].2].id == id
    } by {
        assert(book.index.contains_key(id));
    }
}

/// An order that comes to rest leaves the book sound.
pub proof fn lemma_rested_wf(book: BookView, node: NodeRef, order: Order)
    requires
        book.wf(),
        order.amount.positive(),
        !book.own(order.side).orders.contains_key(node),
    ensures
        book.rested(node, order).wf(),
{
    let v = book.own(order.side);
    let w = v.inserted(node, order);
    let index = book.rested(node, order).index;
    lemma_inserted_wf(v, node, order);
    lemma_inserted_best(v, node, order);
    assert forall|id: OrderId| #[trigger]
        index.contains_key(id) && index[id].0 == order.side implies {
        &&& w.rests(index[id].1, index[id].2)
        &&& w.orders[index[id].2].id == id
    } by {
        if id != order.id {
            assert(book.index.contains_key(id));
            let (_, p, n) = book.index[id];
            let i = v.levels[p].index_of(n);
            assert(v.levels[p][i] == n);
            assert(w.levels[p][i] == n);
        }
    }
}

/// A cancelled order leaves the book sound.
pub proof fn lemma_cancelled_wf(book: BookView, id: OrderId)
    requires
        book.wf(),
    ensures
        book.cancelled(id).wf(),
{
    if book.index.contains_key(id) {
        let (side, price, node) = book.index[id];
        let v = book.own(side);
        let w = v.removed(price, node);
        let index = book.index.remove(id);
        lemma_removed_wf(v, price, node);
        lemma_removed_best(v, side, price, node);
        assert forall|k: OrderId| #[trigger]
            index.contains_key(k) && index[k].0 == side implies {
            &&& w.rests(index[k].1, index[k].2)
            &&& w.orders[index[k].2].id == k
        } by {
            assert(book.index.contains_key(k));
            lemma_others_rest(v, price, node, index[k].1, index[k].2);
        }
    }
}

/// A limit order book.
pub struct Orderbook {
    order_map: HashMap<OrderId, OrderMapEntry>,
    bids: OrderBookSide,
    asks: OrderBookSide,
}

impl View for Orderbook {
    type V = BookView;

    closed spec fn view(&self) -> BookView {
        BookView { bids: self.bids@, asks: self.asks@, index: self.order_map@ }
    }
}

impl Orderbook {
    /// The view is sound and stored as it should be.
    pub open spec fn wf(self) -> bool {
        &&& self@.wf()
        &&& self.stored()
    }

    /// Both sides agree with their views.
    pub closed spec fn stored(self) -> bool {
        &&& self.bids.stored()
        &&& self.asks.stored()
    }

    pub fn new() -> (book: Orderbook)
        ensures
            book.wf(),
            book@ == BookView::vacant(),
    {
        let book = Orderbook {
            order_map: HashMap::new(),
            bids: OrderBookSide::new(),
            asks: OrderBookSide::new(),
        };
        book
    }

    /// Whether the trades of an incoming order come to an end, as `insert_order` requires. They do
    /// unless an infinite amount, or one that is not a number, meets an infinite one.
    pub fn settles(&self, order: &Order) -> (r: bool)
        requires
            self.wf(),
        ensures
            r == settles(self@.other(order.side), *order),
    {
        match order.side {
            Side::BUY => side_settles(&self.asks, order),
            Side::SELL => side_settles(&self.bids, order),
        }
    }

    /// Trades an incoming order with the other side of the book, and lets what is left of it rest
    /// on its own side. Returns the trades, in the order in which they took place.
    pub fn insert_order(&mut self, order: Order) -> (fills: Vec<Fill>)
        requires
            old(self).wf(),
            settles(old(self)@.other(order.side), order),
        ensures
            final(self).wf(),
            fills@ == old(self)@.swept(order).fills,
            old(self)@.becomes(order, final(self)@),
    {
        proof {
            lemma_traded_wf(self@, order);
        }
        let ghost book = self@;
        match order.side {
            Side::BUY => {
                let (remaining, fills) = sweep_side(&mut self.asks, &mut self.order_map, &order);
                assert(self@ == book.traded(order));
                if remaining.is_positive() {
                    let left = Order::new(order.id, order.price, remaining, Side::BUY);
                    let price: Price = price_of(order.price);
                    let node = self.bids.insert_node(left);
                    self.order_map.insert(order.id, (Side::BUY, price, node));
                    proof {
                        lemma_rested_wf(book.traded(order), node, left);
                        assert(self@ == book.traded(order).rested(node, left));
                    }
                }
                fills
            },
            Side::SELL => {
                let (remaining, fills) = sweep_side(&mut self.bids, &mut self.order_map, &order);
                assert(self@ == book.traded(order));
                if remaining.is_positive() {
                    let left = Order::new(order.id, order.price, remaining, Side::SELL);
                    let price: Price = price_of(order.price);
                    let node = self.asks.insert_node(left);
                    self.order_map.insert(order.id, (Side::SELL, price, node));
                    proof {
                        lemma_rested_wf(book.traded(order), node, left);
                        assert(self@ == book.traded(order).rested(node, left));
                    }
                }
                fills
            },
        }
    }

    /// Takes the order that `order_id` leads to out of the book. Returns whether there was one.
    pub fn cancel_order(&mut self, order_id: OrderId) -> (found: bool)
        requires
            old(self).wf(),
        ensures
            final(self).wf(),
            found == old(self)@.index.contains_key(order_id),
            final(self)@ == old(self)@.cancelled(order_id),
    {
        proof {
            lemma_cancelled_wf(self@, order_id);
        }
        let ghost book = self@;
        match self.order_map.remove(&order_id) {
            Some((side, price, node)) => {
                match side {
                    Side::BUY => self.bids.remove_node(price, node),
                    Side::SELL => self.asks.remove_node(price, node),
                }
                assert(self@ == book.cancelled(order_id));
                true
            },
            None => {
                assert(self@ == book);
                false
            },
        }
    }

    /// The side where orders to buy rest.
    pub fn bids(&self) -> (side: &OrderBookSide)
        requires
            self.wf(),
        ensures
            side.wf(),
            side@ == self@.bids,
    {
        &self.bids
    }

    /// The side where orders to sell rest.
    pub fn asks(&self) -> (side: &OrderBookSide)
        requires
            self.wf(),
        ensures
            side.wf(),
            side@ == self@.asks,
    {
        &self.asks
    }

    /// How many orders can be found by their id.
    pub fn order_count(&self) -> (r: usize)
        requires
            self.wf(),
        ensures
            r == self@.index.dom().len(),
    {
        self.order_map.len()
    }

    /// Whether an order can be found by the given id.
    pub fn contains_order(&self, order_id: OrderId) -> (r: bool)
        requires
            self.wf(),
        ensures
            r == self@.index.contains_key(order_id),
    {
        self.order_map.contains_key(&order_id)
    }
}

} // verus!

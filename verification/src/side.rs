//! One side of the book: price levels, each a queue of resting orders.
use crate::binary64::{price_key, price_of, Binary64};
use crate::order::{improves, Order, Price, Side};
use std::collections::BTreeMap;
use vstd::prelude::*;
use vstd::std_specs::cmp::OrdSpec;
use vstd::std_specs::iter::IteratorSpec;

verus! {

/// A handle to a resting order, valid until the order leaves the book.
pub type NodeRef = usize;

/// A resting order and its neighbours in its level's queue.
#[derive(Clone, Copy)]
struct OrderNode {
    order: Order,
    previous: Option<NodeRef>,
    next: Option<NodeRef>,
}

/// The price a level was opened at and the two ends of its queue.
#[derive(Clone, Copy)]
struct Level {
    price: Binary64,
    head: NodeRef,
    tail: NodeRef,
}

/// What one side of the book holds.
#[verifier::ext_equal]
pub struct SideView {
    /// The queue at each price, first come first.
    pub levels: Map<Price, Seq<NodeRef>>,
    /// The price that each level was opened at. Patterns that compare equal share a level, the two
    /// zeros among them; the level keeps the pattern of the order that opened it.
    pub quotes: Map<Price, Binary64>,
    /// The resting orders.
    pub orders: Map<NodeRef, Order>,
    /// The price that incoming orders trade at first.
    pub best: Option<Price>,
}

/// `p` is the lowest of `prices`.
pub open spec fn is_lowest(prices: Set<Price>, p: Price) -> bool {
    &&& prices.contains(p)
    &&& forall|q: Price| #[trigger] prices.contains(q) ==> p <= q
}

/// The lowest of `prices`, if there are any.
pub open spec fn lowest(prices: Set<Price>) -> Option<Price> {
    if exists|p: Price| is_lowest(prices, p) {
        Some(choose|p: Price| is_lowest(prices, p))
    } else {
        None
    }
}

/// `p` is the highest of `prices`.
pub open spec fn is_highest(prices: Set<Price>, p: Price) -> bool {
    &&& prices.contains(p)
    &&& forall|q: Price| #[trigger] prices.contains(q) ==> q <= p
}

/// The highest of `prices`, if there are any.
pub open spec fn highest(prices: Set<Price>) -> Option<Price> {
    if exists|p: Price| is_highest(prices, p) {
        Some(choose|p: Price| is_highest(prices, p))
    } else {
        None
    }
}

/// The best of the `prices` that orders rest at on `side`: the highest bid, the lowest ask.
pub open spec fn best_of(side: Side, prices: Set<Price>) -> Option<Price> {
    match side {
        Side::BUY => highest(prices),
        Side::SELL => lowest(prices),
    }
}

/// Where there are prices, one is the best, and no other improves on it.
pub proof fn lemma_best_of(side: Side, prices: Set<Price>, member: Price)
    requires
        prices.contains(member),
    ensures
        best_of(side, prices) is Some,
        prices.contains(best_of(side, prices)->0),
        forall|q: Price| #[trigger]
            prices.contains(q) ==> !improves(side, q, best_of(side, prices)->0),
    decreases (if side == Side::SELL { member as int } else { u64::MAX - member }),
{
    match side {
        Side::BUY => {
            if !is_highest(prices, member) {
                let q = choose|q: Price| #[trigger] prices.contains(q) && q > member;
                lemma_best_of(side, prices, q);
            }
        },
        Side::SELL => {
            if !is_lowest(prices, member) {
                let q = choose|q: Price| #[trigger] prices.contains(q) && q < member;
                lemma_best_of(side, prices, q);
            }
        },
    }
}

/// A price that no other improves on is the best.
pub proof fn lemma_best_of_is(side: Side, prices: Set<Price>, p: Price)
    requires
        prices.contains(p),
        forall|q: Price| #[trigger] prices.contains(q) ==> !improves(side, q, p),
    ensures
        best_of(side, prices) == Some(p),
{
    match side {
        Side::BUY => {
            assert(is_highest(prices, p));
        },
        Side::SELL => {
            assert(is_lowest(prices, p));
        },
    }
}

/// A queue once `node` has left it.
pub open spec fn without(queue: Seq<NodeRef>, node: NodeRef) -> Seq<NodeRef> {
    queue.remove(queue.index_of(node))
}

impl SideView {
    /// A side with nothing on it.
    pub open spec fn vacant() -> SideView {
        SideView {
            levels: Map::empty(),
            quotes: Map::empty(),
            orders: Map::empty(),
            best: None,
        }
    }

    /// Every level holds some orders and a quote that belongs to it, every order stands once in the
    /// level of its price, and the best price is that of a level unless there is none.
    pub open spec fn wf(self) -> bool {
        &&& self.orders.dom().finite()
        &&& self.quotes.dom() == self.levels.dom()
        &&& forall|p: Price| #[trigger]
            self.levels.contains_key(p) ==> price_key(self.quotes[p]) == p
        &&& match self.best {
            Some(b) => self.levels.contains_key(b),
            None => self.levels.dom() == Set::<Price>::empty(),
        }
        &&& forall|p: Price| #[trigger]
            self.levels.contains_key(p) ==> self.levels[p].len() > 0
                && self.levels[p].no_duplicates()
        &&& forall|p: Price, i: int|
            #![trigger self.levels[p][i]]
            self.levels.contains_key(p) && 0 <= i < self.levels[p].len()
                ==> self.orders.contains_key(self.levels[p][i])
                && self.orders[self.levels[p][i]].level() == p
        &&& forall|n: NodeRef| #[trigger]
            self.orders.contains_key(n) ==> self.levels.contains_key(self.orders[n].level())
                && self.levels[self.orders[n].level()].contains(n)
    }

    /// `node` rests at `price`.
    pub open spec fn rests(self, price: Price, node: NodeRef) -> bool {
        self.levels.contains_key(price) && self.levels[price].contains(node)
    }

    /// The best price after a level at `price` was opened for an order on `side`.
    pub open spec fn best_with(self, side: Side, price: Price) -> Option<Price> {
        match self.best {
            Some(b) => if improves(side, price, b) {
                Some(price)
            } else {
                self.best
            },
            None => Some(price),
        }
    }

    /// The side once `order` has joined the end of its level's queue as `node`.
    pub open spec fn inserted(self, node: NodeRef, order: Order) -> SideView {
        let price = order.level();
        if self.levels.contains_key(price) {
            SideView {
                levels: self.levels.insert(price, self.levels[price].push(node)),
                quotes: self.quotes,
                orders: self.orders.insert(node, order),
                best: self.best,
            }
        } else {
            SideView {
                levels: self.levels.insert(price, seq![node]),
                quotes: self.quotes.insert(price, order.price),
                orders: self.orders.insert(node, order),
                best: self.best_with(order.side, price),
            }
        }
    }

    /// The side once `node` has left the level at `price`. A level goes with its last order; if it
    /// was the best one, the best price left takes its place: the highest where orders to buy
    /// rest, the lowest where orders to sell do.
    pub open spec fn removed(self, price: Price, node: NodeRef) -> SideView {
        let queue = without(self.levels[price], node);
        if queue.len() > 0 {
            SideView {
                levels: self.levels.insert(price, queue),
                quotes: self.quotes,
                orders: self.orders.remove(node),
                best: self.best,
            }
        } else {
            let levels = self.levels.remove(price);
            SideView {
                levels,
                quotes: self.quotes.remove(price),
                orders: self.orders.remove(node),
                best: if self.best == Some(price) {
                    best_of(self.orders[node].side, levels.dom())
                } else {
                    self.best
                },
            }
        }
    }

    /// The side once the order at `node` has been cut to `amount`.
    pub open spec fn reduced(self, node: NodeRef, amount: Binary64) -> SideView {
        SideView {
            orders: self.orders.insert(node, self.orders[node].holding(amount)),
            ..self
        }
    }
}

pub proof fn lemma_inserted_wf(v: SideView, node: NodeRef, order: Order)
    requires
        v.wf(),
        !v.orders.contains_key(node),
    ensures
        v.inserted(node, order).wf(),
        v.inserted(node, order).rests(order.level(), node),
{
    let w = v.inserted(node, order);
    let price = order.level();
    let queue = w.levels[price];
    assert(queue[queue.len() - 1] == node);
    assert(w.quotes.dom() =~= w.levels.dom());
    assert forall|n: NodeRef| #[trigger] w.orders.contains_key(n) implies w.levels.contains_key(
        w.orders[n].level(),
    ) && w.levels[w.orders[n].level()].contains(n) by {
        if n != node {
            let p = v.orders[n].level();
            let i = v.levels[p].index_of(n);
            assert(v.levels[p][i] == n);
            assert(w.levels[p][i] == n);
        }
    }
}

pub proof fn lemma_removed_wf(v: SideView, price: Price, node: NodeRef)
    requires
        v.wf(),
        v.rests(price, node),
    ensures
        v.removed(price, node).wf(),
        v.orders.contains_key(node),
        v.orders[node].level() == price,
{
    let w = v.removed(price, node);
    let queue = v.levels[price];
    let k = queue.index_of(node);
    assert(queue[k] == node);
    assert(w.quotes.dom() =~= w.levels.dom());
    assert forall|p: Price| #[trigger] w.levels.contains_key(p) implies w.levels[p].len() > 0
        && w.levels[p].no_duplicates() by {}
    assert forall|p: Price, i: int|
        #![trigger w.levels[p][i]]
        w.levels.contains_key(p) && 0 <= i < w.levels[p].len() implies w.orders.contains_key(
        w.levels[p][i],
    ) && w.orders[w.levels[p][i]].level() == p by {
        if p == price {
            let j = if i < k { i } else { i + 1 };
            assert(w.levels[p][i] == v.levels[p][j]);
        } else {
            assert(w.levels[p][i] == v.levels[p][i]);
        }
    }
    assert forall|n: NodeRef| #[trigger] w.orders.contains_key(n) implies w.levels.contains_key(
        w.orders[n].level(),
    ) && w.levels[w.orders[n].level()].contains(n) by {
        let p = v.orders[n].level();
        let i = v.levels[p].index_of(n);
        assert(v.levels[p][i] == n);
        if p == price {
            let j = if i < k { i } else { i - 1 };
            assert(without(queue, node)[j] == n);
        }
    }
    if w.best is None {
        assert forall|p: Price| !w.levels.contains_key(p) by {
            if w.levels.contains_key(p) {
                lemma_best_of(v.orders[node].side, w.levels.dom(), p);
            }
        }
        assert(w.levels.dom() =~= Set::<Price>::empty());
    } else if v.best == Some(price) && without(queue, node).len() == 0 {
        assert(w.levels.contains_key(w.best->0));
    }
}

pub proof fn lemma_reduced_wf(v: SideView, node: NodeRef, amount: Binary64)
    requires
        v.wf(),
        v.orders.contains_key(node),
    ensures
        v.reduced(node, amount).wf(),
{
}

/// Who stands before position `i` of a queue.
spec fn before(queue: Seq<NodeRef>, i: int) -> Option<NodeRef> {
    if i == 0 {
        None
    } else {
        Some(queue[i - 1])
    }
}

/// Who stands behind position `i` of a queue.
spec fn behind(queue: Seq<NodeRef>, i: int) -> Option<NodeRef> {
    if i + 1 == queue.len() {
        None
    } else {
        Some(queue[i + 1])
    }
}

/// Every node of every queue knows its neighbours.
spec fn linked(nodes: Seq<OrderNode>, levels: Map<Price, Seq<NodeRef>>) -> bool {
    forall|p: Price, i: int|
        #![trigger levels[p][i]]
        levels.contains_key(p) && 0 <= i < levels[p].len() ==> {
            &&& nodes[levels[p][i] as int].previous == before(levels[p], i)
            &&& nodes[levels[p][i] as int].next == behind(levels[p], i)
        }
}

/// Joining the neighbours of the one at position `k` links the one at position `j` of a queue as it
/// is to be without the former.
proof fn lemma_joined(
    queue: Seq<NodeRef>,
    k: int,
    j: int,
    old_node: OrderNode,
    node: OrderNode,
)
    requires
        queue.no_duplicates(),
        0 <= k < queue.len(),
        0 <= j < queue.len(),
        j != k,
        old_node.previous == before(queue, j),
        old_node.next == behind(queue, j),
        node.previous == if behind(queue, k) == Some(queue[j]) {
            before(queue, k)
        } else {
            old_node.previous
        },
        node.next == if before(queue, k) == Some(queue[j]) {
            behind(queue, k)
        } else {
            old_node.next
        },
    ensures
        ({
            let i = if j < k { j } else { j - 1 };
            &&& queue.remove(k)[i] == queue[j]
            &&& node.previous == before(queue.remove(k), i)
            &&& node.next == behind(queue.remove(k), i)
        }),
{
    let rest = queue.remove(k);
    if j == k + 1 {
        assert(k > 0 ==> rest[k - 1] == queue[k - 1]);
    }
    if j == k - 1 {
        assert(k + 1 < queue.len() ==> rest[k] == queue[k + 1]);
    }
}

/// Joining the neighbours of a node leaves the queues linked as they are without it.
proof fn lemma_unlinked(
    v: SideView,
    price: Price,
    node: NodeRef,
    old_nodes: Seq<OrderNode>,
    nodes: Seq<OrderNode>,
)
    requires
        v.wf(),
        v.rests(price, node),
        linked(old_nodes, v.levels),
        ({
            let queue = v.levels[price];
            let k = queue.index_of(node);
            forall|x: NodeRef|
                #![trigger nodes[x as int]]
                v.orders.contains_key(x) ==> {
                    &&& nodes[x as int].previous == if behind(queue, k) == Some(x) {
                        before(queue, k)
                    } else {
                        old_nodes[x as int].previous
                    }
                    &&& nodes[x as int].next == if before(queue, k) == Some(x) {
                        behind(queue, k)
                    } else {
                        old_nodes[x as int].next
                    }
                }
        }),
    ensures
        linked(nodes, v.removed(price, node).levels),
{
    let levels = v.removed(price, node).levels;
    let queue = v.levels[price];
    let k = queue.index_of(node);
    assert(queue[k] == node);
    assert forall|p: Price, i: int|
        #![trigger levels[p][i]]
        levels.contains_key(p) && 0 <= i < levels[p].len() implies {
        &&& nodes[levels[p][i] as int].previous == before(levels[p], i)
        &&& nodes[levels[p][i] as int].next == behind(levels[p], i)
    } by {
        let n = levels[p][i];
        if p == price {
            let j = if i < k { i } else { i + 1 };
            assert(n == queue[j]);
            lemma_joined(queue, k, j, old_nodes[n as int], nodes[n as int]);
        } else {
            assert(n == v.levels[p][i]);
            assert(v.orders[n].level() == p);
            if k > 0 {
                assert(v.orders[queue[k - 1]].level() == price);
            }
            if k + 1 < queue.len() {
                assert(v.orders[queue[k + 1]].level() == price);
            }
        }
    }
}

/// The keys of the levels come from the lowest up.
proof fn lemma_keys(levels: BTreeMap<Price, Level>, items: Seq<(&Price, &Level)>, keys: Seq<Price>)
    requires
        items == vstd::std_specs::btree::spec_btree_map_iter(&levels).remaining(),
        keys == items.map_values(|kv: (&Price, &Level)| *kv.0),
        vstd::std_specs::btree::increasing_seq(keys),
    ensures
        forall|i: int, j: int| 0 <= i < j < keys.len() ==> keys[i] < keys[j],
        forall|q: Price| #[trigger] keys.contains(q) <==> levels@.contains_key(q),
{
    assert forall|i: int, j: int| 0 <= i < j < keys.len() implies keys[i] < keys[j] by {
        assert(keys[i].cmp_spec(&keys[j]) is Less);
    }
    assert forall|q: Price| #[trigger] keys.contains(q) <==> levels@.contains_key(q) by {
        if levels@.contains_key(q) {
            let i = items.index_of((&q, &levels@[q]));
            assert(keys[i] == q);
        }
        if keys.contains(q) {
            let i = keys.index_of(q);
            assert(levels@.contains_key(*items[i].0));
        }
    }
}

/// One side of the book.
///
/// The queues are doubly linked through `nodes`, so that an order leaves its queue without a
/// search; slots of orders that have left are listed in `free` and used again.
pub struct OrderBookSide {
    levels: BTreeMap<Price, Level>,
    best_price: Option<Price>,
    nodes: Vec<OrderNode>,
    free: Vec<NodeRef>,
    model: Ghost<SideView>,
}

impl View for OrderBookSide {
    type V = SideView;

    closed spec fn view(&self) -> SideView {
        self.model@
    }
}

impl OrderBookSide {
    spec fn ends_ok(self) -> bool {
        &&& self.levels@.dom() == self.model@.levels.dom()
        &&& forall|p: Price| #[trigger]
            self.model@.levels.contains_key(p) ==> self.levels@[p].head == self.model@.levels[p][0]
                && self.levels@[p].tail == self.model@.levels[p].last()
                && self.levels@[p].price == self.model@.quotes[p]
    }

    spec fn nodes_ok(self) -> bool {
        forall|n: NodeRef| #[trigger]
            self.model@.orders.contains_key(n) ==> n < self.nodes@.len()
                && self.nodes@[n as int].order == self.model@.orders[n]
    }

    spec fn links_ok(self) -> bool {
        linked(self.nodes@, self.model@.levels)
    }

    spec fn free_ok(self) -> bool {
        &&& self.free@.no_duplicates()
        &&& forall|i: int|
            #![trigger self.free@[i]]
            0 <= i < self.free@.len() ==> self.free@[i] < self.nodes@.len()
                && !self.model@.orders.contains_key(self.free@[i])
    }

    /// The view is sound and stored as it should be.
    pub open spec fn wf(self) -> bool {
        &&& self@.wf()
        &&& self.stored()
    }

    /// The best price, the levels, the links and the free slots agree with the view.
    pub closed spec fn stored(self) -> bool {
        &&& self.best_price == self.model@.best
        &&& self.ends_ok()
        &&& self.nodes_ok()
        &&& self.links_ok()
        &&& self.free_ok()
    }

    pub fn new() -> (side: OrderBookSide)
        ensures
            side.wf(),
            side@ == SideView::vacant(),
    {
        OrderBookSide {
            levels: BTreeMap::new(),
            best_price: None,
            nodes: Vec::new(),
            free: Vec::new(),
            model: Ghost(SideView::vacant()),
        }
    }

    /// Stores an unlinked node in a slot that no resting order uses.
    fn store(&mut self, order: Order) -> (node: NodeRef)
        requires
            old(self).wf(),
        ensures
            !old(self).model@.orders.contains_key(node),
            final(self).model == old(self).model,
            final(self).best_price == old(self).best_price,
            final(self).levels == old(self).levels,
            final(self).nodes_ok(),
            final(self).links_ok(),
            final(self).free_ok(),
            !final(self).free@.contains(node),
            node < final(self).nodes@.len(),
            final(self).nodes@[node as int] == (OrderNode { order, previous: None, next: None }),
    {
        let fresh = OrderNode { order, previous: None, next: None };
        match self.free.pop() {
            Some(node) => {
                self.nodes[node] = fresh;
                node
            },
            None => {
                let node: NodeRef = self.nodes.len();
                self.nodes.push(fresh);
                node
            },
        }
    }

    /// Puts an order at the end of its level's queue, opening the level if need be.
    pub fn insert_node(&mut self, order: Order) -> (node: NodeRef)
        requires
            old(self).wf(),
        ensures
            final(self).wf(),
            !old(self)@.orders.contains_key(node),
            final(self)@ == old(self)@.inserted(node, order),
    {
        let price: Price = price_of(order.price);
        let node = self.store(order);
        let ghost v = self.model@;
        let ghost w = v.inserted(node, order);
        proof {
            lemma_inserted_wf(v, node, order);
        }
        let found: Option<Level> = match self.levels.get(&price) {
            Some(level) => Some(*level),
            None => None,
        };
        match found {
            None => {
                self.levels.insert(price, Level { price: order.price, head: node, tail: node });
                let better: bool = match self.best_price {
                    None => true,
                    Some(best) => match order.side {
                        Side::BUY => price > best,
                        Side::SELL => price < best,
                    },
                };
                if better {
                    self.best_price = Some(price);
                }
            },
            Some(level) => {
                self.nodes[level.tail].next = Some(node);
                self.nodes[node].previous = Some(level.tail);
                self.levels.insert(
                    price,
                    Level { price: level.price, head: level.head, tail: node },
                );
            },
        }
        self.model = Ghost(w);
        node
    }

    /// The lowest price that has a level.
    fn lowest_price(&self) -> (r: Option<Price>)
        ensures
            r == lowest(self.levels@.dom()),
    {
        let iter = self.levels.iter();
        let ghost items = iter.remaining();
        let ghost keys = items.map_values(|kv: (&Price, &Level)| *kv.0);
        proof {
            lemma_keys(self.levels, items, keys);
            assert(keys.len() > 0 ==> keys.contains(keys[0]));
        }
        for (price, _level) in entries: iter
            invariant
                entries.index() == 0,
                entries.seq() == items,
                keys == items.map_values(|kv: (&Price, &Level)| *kv.0),
                forall|i: int, j: int| 0 <= i < j < keys.len() ==> keys[i] < keys[j],
                forall|q: Price| #[trigger] keys.contains(q) <==> self.levels@.contains_key(q),
                items.len() > 0 ==> keys.contains(keys[0]),
        {
            proof {
                assert(keys[0] == *price);
                assert forall|q: Price| #[trigger] self.levels@.dom().contains(q) implies *price
                    <= q by {
                    assert(keys.contains(q));
                }
                assert(is_lowest(self.levels@.dom(), *price));
            }
            return Some(*price);
        }
        None
    }

    /// The highest price that has a level.
    fn highest_price(&self) -> (r: Option<Price>)
        ensures
            r == highest(self.levels@.dom()),
    {
        let mut last: Option<Price> = None;
        let iter = self.levels.iter();
        let ghost items = iter.remaining();
        let ghost keys = items.map_values(|kv: (&Price, &Level)| *kv.0);
        for (price, _level) in entries: iter
            invariant
                entries.seq() == items,
                keys == items.map_values(|kv: (&Price, &Level)| *kv.0),
                last == if entries.index() == 0 {
                    None
                } else {
                    Some(keys[entries.index() - 1])
                },
        {
            last = Some(*price);
        }
        proof {
            lemma_keys(self.levels, items, keys);
            assert(keys.len() > 0 ==> keys.contains(keys[keys.len() - 1]));
            assert forall|q: Price| #[trigger]
                self.levels@.dom().contains(q) implies last is Some && q <= last->0 by {
                assert(keys.contains(q));
            }
            assert(last is Some ==> is_highest(self.levels@.dom(), last->0));
        }
        last
    }

    /// Joins the neighbours of `node`, which stands in the queue at `price`, and returns them.
    fn unlink(&mut self, node: NodeRef, Ghost(price): Ghost<Price>) -> (r: (
        Option<NodeRef>,
        Option<NodeRef>,
    ))
        requires
            old(self).wf(),
            old(self).model@.rests(price, node),
        ensures
            ({
                let queue = old(self).model@.levels[price];
                let k = queue.index_of(node);
                r == (before(queue, k), behind(queue, k))
            }),
            final(self).model == old(self).model,
            final(self).best_price == old(self).best_price,
            final(self).levels == old(self).levels,
            final(self).free == old(self).free,
            final(self).nodes@.len() == old(self).nodes@.len(),
            final(self).nodes_ok(),
            linked(final(self).nodes@, old(self).model@.removed(price, node).levels),
    {
        let ghost v = self.model@;
        let ghost queue = v.levels[price];
        let ghost k = queue.index_of(node);
        let ghost old_nodes = self.nodes@;
        assert(queue[k] == node);
        let previous = self.nodes[node].previous;
        let next = self.nodes[node].next;
        if let Some(p) = previous {
            assert(p == queue[k - 1]);
            self.nodes[p].next = next;
        }
        if let Some(n) = next {
            assert(n == queue[k + 1]);
            self.nodes[n].previous = previous;
        }
        proof {
            lemma_unlinked(v, price, node, old_nodes, self.nodes@);
        }
        (previous, next)
    }

    /// Takes `node` out of the level at `price` by joining its neighbours. A level goes with its
    /// last order; if it was the best one, the best price left takes its place.
    pub fn remove_node(&mut self, price: Price, node: NodeRef)
        requires
            old(self).wf(),
            old(self)@.levels.contains_key(price) ==> old(self)@.rests(price, node),
        ensures
            final(self).wf(),
            final(self)@ == if old(self)@.levels.contains_key(price) {
                old(self)@.removed(price, node)
            } else {
                old(self)@
            },
    {
        let level: Level = match self.levels.get(&price) {
            Some(level) => *level,
            None => {
                return ;
            },
        };
        let ghost v = self.model@;
        let ghost w = v.removed(price, node);
        let ghost queue = v.levels[price];
        let ghost k = queue.index_of(node);
        proof {
            lemma_removed_wf(v, price, node);
            assert(queue[k] == node);
        }
        let side: Side = self.nodes[node].order.side;
        let (previous, next) = self.unlink(node, Ghost(price));
        match (previous, next) {
            (None, None) => {
                self.levels.remove(&price);
                if self.best_price == Some(price) {
                    self.best_price = match side {
                        Side::BUY => self.highest_price(),
                        Side::SELL => self.lowest_price(),
                    };
                }
            },
            (None, Some(n)) => {
                self.levels.insert(price, Level { price: level.price, head: n, tail: level.tail });
            },
            (Some(p), None) => {
                self.levels.insert(price, Level { price: level.price, head: level.head, tail: p });
            },
            (Some(_), Some(_)) => {},
        }
        self.free.push(node);
        self.model = Ghost(w);
        proof {
            assert(self.levels@.dom() =~= w.levels.dom());
            assert forall|p: Price| #[trigger] w.levels.contains_key(p) implies self.levels@[p].head
                == w.levels[p][0] && self.levels@[p].tail == w.levels[p].last()
                && self.levels@[p].price == w.quotes[p] by {
                assert(v.levels.contains_key(p));
                if p == price {
                    let rest = without(queue, node);
                    assert(rest[0] == if k == 0 { queue[1] } else { queue[0] });
                    assert(rest.last() == if k + 1 == queue.len() {
                        queue[k - 1]
                    } else {
                        queue.last()
                    });
                }
            }
        }
    }

    /// The price that incoming orders trade at first.
    pub fn best_price(&self) -> (r: Option<Price>)
        requires
            self.wf(),
        ensures
            r == self@.best,
    {
        self.best_price
    }

    /// How many prices have orders.
    pub fn level_count(&self) -> (r: usize)
        requires
            self.wf(),
        ensures
            r == self@.levels.dom().len(),
    {
        self.levels.len()
    }

    /// Whether any order rests at `price`.
    pub fn has_level(&self, price: Price) -> (r: bool)
        requires
            self.wf(),
        ensures
            r == self@.levels.contains_key(price),
    {
        self.levels.contains_key(&price)
    }

    /// The prices that have orders, from the lowest up.
    pub fn prices(&self) -> (r: Vec<Price>)
        requires
            self.wf(),
        ensures
            forall|i: int, j: int| 0 <= i < j < r@.len() ==> r@[i] < r@[j],
            forall|p: Price| #[trigger] r@.contains(p) <==> self@.levels.contains_key(p),
    {
        let mut prices: Vec<Price> = Vec::new();
        let iter = self.levels.iter();
        let ghost items = iter.remaining();
        let ghost keys = items.map_values(|kv: (&Price, &Level)| *kv.0);
        for (price, _level) in entries: iter
            invariant
                entries.seq() == items,
                keys == items.map_values(|kv: (&Price, &Level)| *kv.0),
                prices@ == keys.take(entries.index()),
        {
            prices.push(*price);
            assert(keys.take(entries.index() + 1) =~= keys.take(entries.index()).push(*price));
        }
        proof {
            assert(prices@ =~= keys);
            lemma_keys(self.levels, items, keys);
        }
        prices
    }

    /// The orders that rest at `price`, first come first, or `None` where there is no level.
    pub fn level_orders(&self, price: Price) -> (r: Option<Vec<Order>>)
        requires
            self.wf(),
        ensures
            match r {
                Some(orders) => self@.levels.contains_key(price) && orders@
                    == self@.levels[price].map_values(|n: NodeRef| self@.orders[n]),
                None => !self@.levels.contains_key(price),
            },
    {
        let level: Level = match self.levels.get(&price) {
            Some(level) => *level,
            None => {
                return None;
            },
        };
        let ghost queue = self.model@.levels[price];
        let mut orders: Vec<Order> = Vec::new();
        let mut current: NodeRef = level.head;
        loop
            invariant_except_break
                orders@.len() < queue.len(),
                current == queue[orders@.len() as int],
            invariant
                self.wf(),
                self.model@.levels.contains_key(price),
                queue == self.model@.levels[price],
                forall|i: int|
                    0 <= i < orders@.len() ==> orders@[i]
                        == self.model@.orders[#[trigger] queue[i]],
            ensures
                orders@.len() == queue.len(),
            decreases queue.len() - orders@.len(),
        {
            let node = self.nodes[current];
            orders.push(node.order);
            match node.next {
                Some(next) => {
                    current = next;
                },
                None => {
                    break;
                },
            }
        }
        assert(orders@ =~= queue.map_values(|n: NodeRef| self@.orders[n]));
        Some(orders)
    }

    /// The price that the level at `price` was opened at.
    pub fn quote(&self, price: Price) -> (r: Binary64)
        requires
            self.wf(),
            self@.levels.contains_key(price),
        ensures
            r == self@.quotes[price],
            price_key(r) == price,
    {
        match self.levels.get(&price) {
            Some(level) => level.price,
            None => Binary64::from_bits(0),
        }
    }

    /// The first in the queue at `price`.
    pub(crate) fn head(&self, price: Price) -> (node: NodeRef)
        requires
            self.wf(),
            self@.levels.contains_key(price),
        ensures
            node == self@.levels[price][0],
    {
        match self.levels.get(&price) {
            Some(level) => level.head,
            None => 0,
        }
    }

    /// The order that rests as `node`.
    pub(crate) fn order(&self, node: NodeRef) -> (order: Order)
        requires
            self.wf(),
            self@.orders.contains_key(node),
        ensures
            order == self@.orders[node],
    {
        self.nodes[node].order
    }

    /// Cuts the order that rests as `node` to `amount`.
    pub(crate) fn reduce(&mut self, node: NodeRef, amount: Binary64)
        requires
            old(self).wf(),
            old(self)@.orders.contains_key(node),
        ensures
            final(self).wf(),
            final(self)@ == old(self)@.reduced(node, amount),
    {
        proof {
            lemma_reduced_wf(self.model@, node, amount);
        }
        self.nodes[node].order.amount = amount;
        self.model = Ghost(self.model@.reduced(node, amount));
    }
}

/// What a side is: a queue at each price that some order was made at, in which each of these
/// orders stands once, and a quote of that price. The best price is one of these, and there is
/// none only where no order rests.
pub proof fn law_side_is_sound(v: SideView)
    requires
        v.wf(),
    ensures
        forall|p: Price| #[trigger] v.levels.contains_key(p) <==> v.quotes.contains_key(p),
        forall|p: Price| #[trigger]
            v.levels.contains_key(p) ==> v.levels[p].len() > 0 && price_key(v.quotes[p]) == p,
        forall|p: Price, i: int, j: int|
            v.levels.contains_key(p) && 0 <= i < j < v.levels[p].len() ==> #[trigger] v.levels[p][i]
                != #[trigger] v.levels[p][j],
        forall|p: Price, i: int|
            v.levels.contains_key(p) && 0 <= i < v.levels[p].len() ==> v.orders.contains_key(
                #[trigger] v.levels[p][i],
            ) && price_key(v.orders[v.levels[p][i]].price) == p,
        forall|n: NodeRef| #[trigger]
            v.orders.contains_key(n) ==> v.levels.contains_key(price_key(v.orders[n].price))
                && v.levels[price_key(v.orders[n].price)].contains(n),
        forall|p: Price, n: NodeRef| #[trigger]
            v.rests(p, n) <==> v.levels.contains_key(p) && v.levels[p].contains(n),
        v.best matches Some(b) ==> v.levels.contains_key(b),
        v.best is None ==> forall|p: Price| !#[trigger] v.levels.contains_key(p),
{
}

/// An order joins the end of the queue at its price, and nothing else changes but for a level that
/// it opens: that one takes its quote, and becomes the best where there was none or it is better,
/// which for orders to buy is higher and for orders to sell lower.
pub proof fn law_joining(v: SideView, node: NodeRef, order: Order, q: Price)
    requires
        v.wf(),
        !v.orders.contains_key(node),
    ensures
        ({
            let w = v.inserted(node, order);
            let p = price_key(order.price);
            let queue = if v.levels.contains_key(p) {
                v.levels[p]
            } else {
                Seq::empty()
            };
            &&& w.orders == v.orders.insert(node, order)
            &&& w.levels.contains_key(p) && w.levels[p] == queue.push(node)
            &&& q != p ==> {
                &&& w.levels.contains_key(q) <==> v.levels.contains_key(q)
                &&& v.levels.contains_key(q) ==> w.levels[q] == v.levels[q] && w.quotes[q]
                    == v.quotes[q]
            }
            &&& if v.levels.contains_key(p) {
                w.quotes[p] == v.quotes[p] && w.best == v.best
            } else {
                &&& w.quotes[p] == order.price
                &&& v.best is None ==> w.best == Some(p)
                &&& v.best is Some && order.side == Side::BUY ==> w.best == Some(
                    if v.best->0 < p {
                        p
                    } else {
                        v.best->0
                    },
                )
                &&& v.best is Some && order.side == Side::SELL ==> w.best == Some(
                    if p < v.best->0 {
                        p
                    } else {
                        v.best->0
                    },
                )
            }
        }),
{
    let w = v.inserted(node, order);
    let p = price_key(order.price);
    if !v.levels.contains_key(p) {
        assert(w.levels[p] =~= Seq::empty().push(node));
    }
}

/// An order that leaves its queue leaves the others in it as they stood, and all other levels.
/// With the last one the level goes; if it was the best, the highest price left follows an order
/// to buy, and the lowest an order to sell.
pub proof fn law_leaving(v: SideView, price: Price, node: NodeRef, q: Price)
    requires
        v.wf(),
        v.levels.contains_key(price),
        v.levels[price].contains(node),
    ensures
        ({
            let w = v.removed(price, node);
            let k = v.levels[price].index_of(node);
            let queue = v.levels[price].take(k) + v.levels[price].skip(k + 1);
            &&& w.orders == v.orders.remove(node)
            &&& w.levels.contains_key(price) <==> queue.len() > 0
            &&& queue.len() > 0 ==> w.levels[price] == queue && w.quotes[price] == v.quotes[price]
            &&& q != price ==> {
                &&& w.levels.contains_key(q) <==> v.levels.contains_key(q)
                &&& v.levels.contains_key(q) ==> w.levels[q] == v.levels[q] && w.quotes[q]
                    == v.quotes[q]
            }
            &&& queue.len() > 0 || v.best != Some(price) ==> w.best == v.best
            &&& queue.len() == 0 && v.best == Some(price) ==> {
                &&& w.best is None ==> !w.levels.contains_key(q)
                &&& w.best matches Some(b) ==> w.levels.contains_key(b)
                &&& w.best is Some && w.levels.contains_key(q) ==> {
                    &&& v.orders[node].side == Side::BUY ==> q <= w.best->0
                    &&& v.orders[node].side == Side::SELL ==> w.best->0 <= q
                }
            }
        }),
{
    let w = v.removed(price, node);
    let queue = v.levels[price];
    let k = queue.index_of(node);
    lemma_removed_wf(v, price, node);
    assert(queue[k] == node);
    assert(without(queue, node) =~= queue.take(k) + queue.skip(k + 1));
    if w.levels.contains_key(q) {
        lemma_best_of(v.orders[node].side, w.levels.dom(), q);
    }
}

/// Cutting an order changes its amount alone.
pub proof fn law_cutting(v: SideView, node: NodeRef, amount: Binary64)
    requires
        v.wf(),
        v.orders.contains_key(node),
    ensures
        ({
            let w = v.reduced(node, amount);
            let order = v.orders[node];
            &&& w.levels == v.levels && w.quotes == v.quotes && w.best == v.best
            &&& w.orders == v.orders.insert(
                node,
                (Order { id: order.id, price: order.price, amount, side: order.side }),
            )
        }),
{
}

} // verus!

//! Orders and the prices they are ranked by.
use crate::binary64::{price_key, Binary64};
use vstd::prelude::*;

verus! {

/// A price, as a key that orders and identifies it (`binary64::price_of`). The two zeros are one
/// price, and so are all NaNs.
pub type Price = u64;

pub type OrderId = u32;

#[derive(Clone, Copy, Debug, PartialEq, Eq, Structural)]
pub enum Side {
    BUY,
    SELL,
}

/// A limit order, or what is left of one.
#[derive(Clone, Copy, Debug, PartialEq, Eq, Structural)]
pub struct Order {
    pub id: OrderId,
    pub price: Binary64,
    pub amount: Binary64,
    pub side: Side,
}

impl Order {
    /// The price level that the order belongs to.
    pub open spec fn level(self) -> Price {
        price_key(self.price)
    }

    /// The same order with another amount.
    pub open spec fn holding(self, amount: Binary64) -> Order {
        Order { amount, ..self }
    }

    pub fn new(id: OrderId, price: Binary64, amount: Binary64, side: Side) -> (order: Order)
        ensures
            order.id == id,
            order.price == price,
            order.amount == amount,
            order.side == side,
    {
        Order { id, price, amount, side }
    }
}

/// Whether `price` is the better price for an order that rests on `side`.
pub open spec fn improves(side: Side, price: Price, best: Price) -> bool {
    match side {
        Side::BUY => price > best,
        Side::SELL => price < best,
    }
}

/// Whether an incoming order on `side` with the given limit may trade at `price`.
pub open spec fn crosses(side: Side, limit: Price, price: Price) -> bool {
    match side {
        Side::BUY => price <= limit,
        Side::SELL => limit <= price,
    }
}

} // verus!

//! Value types of the engine: sides, orders, priority keys and fill events,
//! together with the comparison rule that ranks resting orders.

use vstd::prelude::*;

verus! {

/// The side of the market an order belongs to.
#[derive(Clone, Copy, Debug, PartialEq, Eq, Structural)]
pub enum OrderSide {
    Buy,
    Sell,
}

impl OrderSide {
    /// The side an order of this side trades against.
    pub open spec fn spec_opposite(self) -> OrderSide {
        match self {
            OrderSide::Buy => OrderSide::Sell,
            OrderSide::Sell => OrderSide::Buy,
        }
    }

    /// The side an order of this side trades against.
    #[verifier::when_used_as_spec(spec_opposite)]
    pub fn opposite(self) -> (side: OrderSide)
        ensures
            side == self.spec_opposite(),
    {
        match self {
            OrderSide::Buy => OrderSide::Sell,
            OrderSide::Sell => OrderSide::Buy,
        }
    }
}

/// The sortable projection of an order that the priority queues hold.
///
/// `timestamp` is a logical sequence number handed out by the book, not a
/// wall-clock time.
#[derive(Clone, Copy, Debug, PartialEq, Eq, Structural)]
pub struct OrderKey {
    pub id: u64,
    pub side: OrderSide,
    pub price: u64,
    pub timestamp: u64,
}

impl OrderKey {
    /// The price of `self` is strictly more favourable for its side than that
    /// of `other`: higher for a buy, lower for a sell.
    pub open spec fn better_priced(self, other: OrderKey) -> bool {
        match self.side {
            OrderSide::Buy => self.price > other.price,
            OrderSide::Sell => self.price < other.price,
        }
    }

    /// `self` is matched strictly before `other`: its price is more
    /// favourable for its side (higher for a buy, lower for a sell), or the
    /// prices are equal and it was queued earlier. The identifier plays no
    /// part.
    pub open spec fn spec_outranks(self, other: OrderKey) -> bool {
        if self.price == other.price {
            self.timestamp < other.timestamp
        } else {
            match self.side {
                OrderSide::Buy => self.price > other.price,
                OrderSide::Sell => self.price < other.price,
            }
        }
    }

    /// Price-time comparison of two keys of one side.
    #[verifier::when_used_as_spec(spec_outranks)]
    pub fn outranks(self, other: OrderKey) -> (first: bool)
        ensures
            first == self.spec_outranks(other),
    {
        if self.price == other.price {
            self.timestamp < other.timestamp
        } else {
            match self.side {
                OrderSide::Buy => self.price > other.price,
                OrderSide::Sell => self.price < other.price,
            }
        }
    }
}

/// One match between an incoming order and a resting order.
#[derive(Clone, Copy, Debug, PartialEq, Eq, Structural)]
pub struct FillEvent {
    /// Identifier of the incoming (aggressing) order.
    pub order_id: u64,
    /// Identifier of the resting order it traded against.
    pub matched_order_id: u64,
    /// Quantity traded.
    pub quantity: u64,
    /// Trade price: always the resting order's price.
    pub price: u64,
}

/// An order, either on its way into the book or resting in it.
#[derive(Clone, Copy, Debug, PartialEq, Eq, Structural)]
pub struct Order {
    pub order_key: OrderKey,
    /// Quantity currently eligible to match.
    pub visible_quantity: u64,
    /// Quantity not yet exposed; zero for a plain order.
    pub hidden_reserve: u64,
    /// The size to which the visible quantity of an iceberg order is
    /// replenished.
    pub peak_size: u64,
}

impl Order {
    /// Visible and hidden quantity together.
    pub open spec fn total(self) -> int {
        self.visible_quantity + self.hidden_reserve
    }

    /// An order with reserve left must have a positive peak size, so that a
    /// replenishment always exposes something.
    pub open spec fn well_formed(self) -> bool {
        self.hidden_reserve > 0 ==> self.peak_size > 0
    }

    pub open spec fn spec_empty(&self) -> bool {
        self.visible_quantity == 0 && self.hidden_reserve == 0
    }

    pub open spec fn spec_is_iceberg(&self) -> bool {
        self.hidden_reserve > 0
    }

    /// The prices of an incoming order and of the best key of the other
    /// side allow a trade.
    pub open spec fn spec_crosses(self, best: OrderKey) -> bool {
        match self.order_key.side {
            OrderSide::Buy => self.order_key.price >= best.price,
            OrderSide::Sell => self.order_key.price <= best.price,
        }
    }

    /// The fill that results when `self` arrives and meets `resting`.
    pub open spec fn fill_event(self, resting: Order) -> FillEvent {
        FillEvent {
            order_id: self.order_key.id,
            matched_order_id: resting.order_key.id,
            quantity: if self.visible_quantity <= resting.visible_quantity {
                self.visible_quantity
            } else {
                resting.visible_quantity
            },
            price: resting.order_key.price,
        }
    }

    /// The order after `quantity` of its visible quantity has traded.
    pub open spec fn after_fill(self, quantity: u64) -> Order {
        Order { visible_quantity: (self.visible_quantity - quantity) as u64, ..self }
    }

    /// The order after a replenishment: if nothing is visible, the smaller
    /// of the reserve and the peak size moves from the reserve to the
    /// visible quantity. An order with visible quantity left is unchanged.
    pub open spec fn reloaded(self) -> Order {
        if self.visible_quantity == 0 {
            let slice = if self.hidden_reserve <= self.peak_size {
                self.hidden_reserve
            } else {
                self.peak_size
            };
            Order {
                visible_quantity: slice,
                hidden_reserve: (self.hidden_reserve - slice) as u64,
                ..self
            }
        } else {
            self
        }
    }

    /// The visible quantity of an order with reserve is at most its peak
    /// size.
    pub open spec fn within_peak(self) -> bool {
        self.hidden_reserve > 0 ==> self.visible_quantity <= self.peak_size
    }

    /// The order with its timestamp replaced.
    pub open spec fn stamped(self, timestamp: u64) -> Order {
        Order { order_key: OrderKey { timestamp, ..self.order_key }, ..self }
    }

    /// Nothing is left of the order, visible or hidden.
    #[verifier::when_used_as_spec(spec_empty)]
    pub fn empty(&self) -> (e: bool)
        ensures
            e == self.spec_empty(),
    {
        self.visible_quantity == 0 && self.hidden_reserve == 0
    }

    /// The order has reserve behind its visible quantity. An order that has
    /// used up its reserve is no longer an iceberg order.
    #[verifier::when_used_as_spec(spec_is_iceberg)]
    pub fn is_iceberg(&self) -> (i: bool)
        ensures
            i == self.spec_is_iceberg(),
    {
        self.hidden_reserve > 0
    }

    /// Whether this incoming order can trade against the best key of the
    /// other side.
    #[verifier::when_used_as_spec(spec_crosses)]
    pub fn crosses(self, best: OrderKey) -> (c: bool)
        ensures
            c == self.spec_crosses(best),
    {
        match self.order_key.side {
            OrderSide::Buy => self.order_key.price >= best.price,
            OrderSide::Sell => self.order_key.price <= best.price,
        }
    }

    /// The fill of this incoming order against `resting`: the smaller of the
    /// two visible quantities, at the resting order's price.
    pub fn get_fill_event(&self, resting: &Order) -> (fill: FillEvent)
        ensures
            fill == self.fill_event(*resting),
    {
        let quantity: u64 = if self.visible_quantity <= resting.visible_quantity {
            self.visible_quantity
        } else {
            resting.visible_quantity
        };
        FillEvent {
            order_id: self.order_key.id,
            matched_order_id: resting.order_key.id,
            quantity,
            price: resting.order_key.price,
        }
    }

    /// Replenishes the visible quantity from the reserve, up to the peak
    /// size, once the visible quantity is used up.
    pub fn reload_iceberg_order(&mut self)
        ensures
            *final(self) == old(self).reloaded(),
    {
        if self.visible_quantity == 0 {
            let slice: u64 = if self.hidden_reserve <= self.peak_size {
                self.hidden_reserve
            } else {
                self.peak_size
            };
            self.visible_quantity = slice;
            self.hidden_reserve = self.hidden_reserve - slice;
        }
    }
}

/// Within one side, `outranks` is a strict order, and it is total on keys
/// with distinct timestamps: no key outranks itself, no two keys outrank each
/// other, the relation is transitive, and of two keys with different
/// timestamps one outranks the other.
pub proof fn lemma_outranks_strict_total_order(a: OrderKey, b: OrderKey, c: OrderKey)
    requires
        a.side == b.side,
        b.side == c.side,
    ensures
        !a.outranks(a),
        a.outranks(b) ==> !b.outranks(a),
        a.outranks(b) && b.outranks(c) ==> a.outranks(c),
        a.timestamp != b.timestamp ==> a.outranks(b) || b.outranks(a),
{
}

} // verus!

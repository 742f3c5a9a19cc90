//! The executable order book.
//!
//! The book keeps the record of every resting order in a map from
//! identifier to order, and one priority queue of keys per side. A queue is
//! a vector sorted by priority with the best key last, so that the best key
//! is read and removed at the end. The queues hold keys only: every
//! quantity is read through the map.

use crate::matching_engine::laws::{lemma_incoming_after_fill, lemma_match_counter};
use crate::matching_engine::model::{
    admissible, enqueue, lemma_fill_best_live, lemma_fill_best_wf, lemma_queue_tail,
    lemma_rank_in_unique, lemma_rest_wf, lemma_wf_live, match_order, order_live,
    queue_contains_id, resting_ok, BookView,
};
use crate::matching_engine::order::{FillEvent, Order, OrderKey, OrderSide};
use std::collections::HashMap;
use vstd::prelude::*;

verus! {

/// The queue of records that a vector of keys stands for: the keys read
/// from the last to the first, each resolved through the map.
spec fn resolve(keys: Seq<OrderKey>, orders: Map<u64, Order>) -> Seq<Order> {
    Seq::new(keys.len(), |i: int| orders[keys[keys.len() - 1 - i].id])
}

/// Every key has its record in the map, and the record carries the key.
spec fn keys_agree(keys: Seq<OrderKey>, orders: Map<u64, Order>) -> bool {
    forall|i: int|
        #![trigger keys[i]]
        0 <= i < keys.len() ==> orders.contains_key(keys[i].id) && orders[keys[i].id].order_key
            == keys[i]
}

/// No key of the vector has this identifier.
spec fn keys_lack(keys: Seq<OrderKey>, id: u64) -> bool {
    forall|i: int| #![trigger keys[i]] 0 <= i < keys.len() ==> keys[i].id != id
}

/// A map that has the same record as another for every key of a vector
/// resolves the vector to the same queue.
proof fn lemma_resolve_frame(keys: Seq<OrderKey>, before: Map<u64, Order>, after: Map<u64, Order>)
    requires
        keys_agree(keys, before),
        forall|i: int|
            #![trigger keys[i]]
            0 <= i < keys.len() ==> after.contains_key(keys[i].id) && after[keys[i].id]
                == before[keys[i].id],
    ensures
        keys_agree(keys, after),
        resolve(keys, after) == resolve(keys, before),
{
    assert(resolve(keys, after) =~= resolve(keys, before));
}

/// The records of a resolved queue carry the keys, read backwards.
proof fn lemma_resolve_keys(keys: Seq<OrderKey>, orders: Map<u64, Order>)
    requires
        keys_agree(keys, orders),
    ensures
        resolve(keys, orders).len() == keys.len(),
        forall|i: int|
            #![trigger resolve(keys, orders)[i]]
            0 <= i < keys.len() ==> resolve(keys, orders)[i] == orders[keys[keys.len() - 1
                - i].id] && resolve(keys, orders)[i].order_key == keys[keys.len() - 1 - i],
{
}

/// If the queue that a vector stands for holds no identifier twice, the
/// vector does not either; and an identifier is among the keys exactly if
/// it is in the queue.
proof fn lemma_resolve_ids(keys: Seq<OrderKey>, orders: Map<u64, Order>)
    requires
        keys_agree(keys, orders),
    ensures
        forall|id: u64| keys_lack(keys, id) <==> !queue_contains_id(resolve(keys, orders), id),
{
    let queue = resolve(keys, orders);
    lemma_resolve_keys(keys, orders);
    assert forall|id: u64| keys_lack(keys, id) <==> !queue_contains_id(queue, id) by {
        if queue_contains_id(queue, id) {
            let i = choose|i: int| 0 <= i < queue.len() && (#[trigger] queue[i]).order_key.id == id;
            assert(keys[keys.len() - 1 - i].id == id);
        }
        if !keys_lack(keys, id) {
            let k = choose|k: int| 0 <= k < keys.len() && (#[trigger] keys[k]).id == id;
            assert(queue[keys.len() - 1 - k].order_key.id == id);
        }
    }
}

/// Removing the last key removes the first order of the queue.
proof fn lemma_resolve_pop(keys: Seq<OrderKey>, orders: Map<u64, Order>)
    requires
        keys.len() > 0,
        keys_agree(keys, orders),
    ensures
        keys_agree(keys.drop_last(), orders),
        resolve(keys.drop_last(), orders) == resolve(keys, orders).drop_first(),
{
    let rest = keys.drop_last();
    assert forall|i: int| 0 <= i < rest.len() implies orders.contains_key(
        (#[trigger] rest[i]).id,
    ) && orders[rest[i].id].order_key == rest[i] by {
        assert(rest[i] == keys[i]);
    }
    assert(resolve(rest, orders) =~= resolve(keys, orders).drop_first());
}

/// Inserting a key with a new identifier, together with its record, inserts
/// the record into the queue at the mirrored place.
proof fn lemma_resolve_insert(
    keys: Seq<OrderKey>,
    orders: Map<u64, Order>,
    place: int,
    order: Order,
)
    requires
        0 <= place <= keys.len(),
        keys_agree(keys, orders),
        keys_lack(keys, order.order_key.id),
    ensures
        keys_agree(keys.insert(place, order.order_key), orders.insert(order.order_key.id, order)),
        resolve(keys.insert(place, order.order_key), orders.insert(order.order_key.id, order))
            == resolve(keys, orders).insert(keys.len() - place, order),
{
    let id = order.order_key.id;
    let keys2 = keys.insert(place, order.order_key);
    let orders2 = orders.insert(id, order);
    assert forall|i: int| 0 <= i < keys2.len() implies orders2.contains_key(
        (#[trigger] keys2[i]).id,
    ) && orders2[keys2[i].id].order_key == keys2[i] by {
        if i < place {
            assert(keys2[i] == keys[i]);
        } else if i > place {
            assert(keys2[i] == keys[i - 1]);
        }
    }
    let left = resolve(keys2, orders2);
    let right = resolve(keys, orders).insert(keys.len() - place, order);
    assert(left.len() == right.len());
    assert forall|i: int| 0 <= i < left.len() implies left[i] == right[i] by {
        let k = keys2.len() - 1 - i;
        if k < place {
            assert(keys2[k] == keys[k]);
        } else if k > place {
            assert(keys2[k] == keys[k - 1]);
        }
    }
    assert(left =~= right);
}

/// Replacing the record of the last key, where no other key has its
/// identifier, replaces the first order of the queue.
proof fn lemma_resolve_update(keys: Seq<OrderKey>, orders: Map<u64, Order>, order: Order)
    requires
        keys.len() > 0,
        keys_agree(keys, orders),
        order.order_key == keys.last(),
        keys_lack(keys.drop_last(), order.order_key.id),
    ensures
        keys_agree(keys, orders.insert(order.order_key.id, order)),
        resolve(keys, orders.insert(order.order_key.id, order)) == resolve(keys, orders).update(
            0,
            order,
        ),
{
    let orders2 = orders.insert(order.order_key.id, order);
    let rest = keys.drop_last();
    assert forall|i: int| 0 <= i < keys.len() implies orders2.contains_key(
        (#[trigger] keys[i]).id,
    ) && orders2[keys[i].id].order_key == keys[i] by {
        if i < keys.len() - 1 {
            assert(rest[i] == keys[i]);
        }
    }
    let left = resolve(keys, orders2);
    let right = resolve(keys, orders).update(0, order);
    assert forall|i: int| 0 <= i < left.len() implies left[i] == right[i] by {
        let k = keys.len() - 1 - i;
        if i > 0 {
            assert(rest[k] == keys[k]);
        }
    }
    assert(left =~= right);
}

/// The order book: the records of the resting orders by identifier, a
/// priority queue of keys for each side, and the counter from which
/// timestamps are taken.
pub struct Orderbook {
    orders: HashMap<u64, Order>,
    best_sell_orders: Vec<OrderKey>,
    best_buy_orders: Vec<OrderKey>,
    time_counter: u64,
}

/// A snapshot of the book: the resting orders of each side, best first.
pub struct OrderbookContent {
    pub buy_orders: Vec<Order>,
    pub sell_orders: Vec<Order>,
}

impl OrderbookContent {
    /// The snapshot lists exactly the resting orders of `book`, side by
    /// side and in the book's order.
    pub open spec fn shows(&self, book: BookView) -> bool {
        self.buy_orders@ == book.buy_orders && self.sell_orders@ == book.sell_orders
    }
}

/// Idempotent snapshot. A snapshot is determined by the book: two snapshots
/// of one book, with no call that changes the book between them, list the
/// same orders in the same order.
pub proof fn lemma_snapshot_determined(
    book: Orderbook,
    first: OrderbookContent,
    second: OrderbookContent,
)
    requires
        first.shows(book@),
        second.shows(book@),
    ensures
        first.buy_orders@ == second.buy_orders@,
        first.sell_orders@ == second.sell_orders@,
{
}

impl View for Orderbook {
    type V = BookView;

    closed spec fn view(&self) -> BookView {
        BookView {
            buy_orders: resolve(self.best_buy_orders@, self.orders@),
            sell_orders: resolve(self.best_sell_orders@, self.orders@),
            time_counter: self.time_counter as nat,
        }
    }
}

impl Orderbook {
    /// The keys of one side, the best last.
    closed spec fn keys(&self, side: OrderSide) -> Seq<OrderKey> {
        match side {
            OrderSide::Buy => self.best_buy_orders@,
            OrderSide::Sell => self.best_sell_orders@,
        }
    }

    /// The two queues and the map are consistent: each key resolves to a
    /// record that carries it, the map holds no other record, and the book
    /// they stand for is well formed.
    pub closed spec fn wf(&self) -> bool {
        &&& self@.wf()
        &&& keys_agree(self.best_buy_orders@, self.orders@)
        &&& keys_agree(self.best_sell_orders@, self.orders@)
        &&& forall|id: u64| self.orders@.contains_key(id) ==> self@.contains_id(id)
    }

    /// A consistent book stands for a well-formed one.
    pub proof fn lemma_wf_view(&self)
        requires
            self.wf(),
        ensures
            self@.wf(),
    {
    }

    /// An empty book.
    pub fn new() -> (book: Orderbook)
        ensures
            book.wf(),
            book@ == BookView::empty(),
    {
        let book = Orderbook {
            orders: HashMap::new(),
            best_sell_orders: Vec::new(),
            best_buy_orders: Vec::new(),
            time_counter: 0,
        };
        assert(book@.buy_orders =~= Seq::empty());
        assert(book@.sell_orders =~= Seq::empty());
        book
    }

    /// The best key of one side, if the side has any order.
    fn peek(&self, side: OrderSide) -> (best: Option<OrderKey>)
        requires
            self.wf(),
        ensures
            best is None <==> self@.queue(side).len() == 0,
            best is Some ==> best->0 == self@.queue(side)[0].order_key && best->0
                == self.keys(side).last(),
    {
        proof {
            lemma_resolve_keys(self.keys(side), self.orders@);
        }
        match side {
            OrderSide::Buy => {
                let len: usize = self.best_buy_orders.len();
                if len == 0 {
                    None
                } else {
                    Some(self.best_buy_orders[len - 1])
                }
            },
            OrderSide::Sell => {
                let len: usize = self.best_sell_orders.len();
                if len == 0 {
                    None
                } else {
                    Some(self.best_sell_orders[len - 1])
                }
            },
        }
    }

    /// Removes the best key of one side. Nothing else changes.
    fn pop(&mut self, side: OrderSide)
        requires
            old(self).keys(side).len() > 0,
        ensures
            final(self).keys(side) == old(self).keys(side).drop_last(),
            final(self).keys(side.opposite()) == old(self).keys(side.opposite()),
            final(self).orders == old(self).orders,
            final(self).time_counter == old(self).time_counter,
    {
        match side {
            OrderSide::Buy => {
                self.best_buy_orders.pop();
            },
            OrderSide::Sell => {
                self.best_sell_orders.pop();
            },
        }
    }

    /// Puts a key into the queue of its side, below every key that it does
    /// not outrank, and returns the index at which it stands. Nothing else
    /// changes.
    fn push(&mut self, key: OrderKey) -> (place: usize)
        ensures
            place <= old(self).keys(key.side).len(),
            final(self).keys(key.side) == old(self).keys(key.side).insert(place as int, key),
            forall|k: int|
                #![trigger old(self).keys(key.side)[k]]
                place <= k < old(self).keys(key.side).len() ==> !key.outranks(
                    old(self).keys(key.side)[k],
                ),
            place > 0 ==> key.outranks(old(self).keys(key.side)[place - 1]),
            final(self).keys(key.side.opposite()) == old(self).keys(key.side.opposite()),
            final(self).orders == old(self).orders,
            final(self).time_counter == old(self).time_counter,
    {
        match key.side {
            OrderSide::Buy => insert_by_priority(&mut self.best_buy_orders, key),
            OrderSide::Sell => insert_by_priority(&mut self.best_sell_orders, key),
        }
    }

    /// Brings `order` to rest: it takes the next timestamp, its record goes
    /// into the map and its key into the queue of its side.
    fn add_order(&mut self, order: &mut Order)
        requires
            old(self).wf(),
            old(order).visible_quantity > 0,
            admissible(old(self)@, *old(order)),
            old(self)@.time_counter < u64::MAX,
        ensures
            final(self).wf(),
            final(self)@ == old(self)@.rest(*old(order)),
            *final(order) == old(order).stamped((old(self)@.time_counter + 1) as u64),
    {
        let ghost before = *self;
        self.time_counter += 1;
        order.order_key.timestamp = self.time_counter;
        self.orders.insert(order.order_key.id, *order);
        let place: usize = self.push(order.order_key);
        proof {
            let side = order.order_key.side;
            let other = side.opposite();
            let id = order.order_key.id;
            let keys = before.keys(side);
            let queue = resolve(keys, before.orders@);
            assert(queue == before@.queue(side));
            assert(resolve(before.keys(other), before.orders@) == before@.queue(other));
            lemma_resolve_ids(keys, before.orders@);
            lemma_resolve_ids(before.keys(other), before.orders@);
            lemma_resolve_keys(keys, before.orders@);
            lemma_resolve_insert(keys, before.orders@, place as int, *order);
            lemma_rank_in_unique(queue, order.order_key, keys.len() - place);
            lemma_resolve_frame(before.keys(other), before.orders@, self.orders@);
            assert(self@.queue(side) == enqueue(queue, *order));
            assert(self@.queue(other) == before@.queue(other));
            assert(self@ == before@.rest(*old(order)));
            lemma_rest_wf(before@, *old(order));
            assert(keys_agree(self.keys(side), self.orders@));
            assert(keys_agree(self.keys(other), self.orders@));
            assert forall|any: u64| self.orders@.contains_key(any) implies self@.contains_id(
                any,
            ) by {
                if any != id {
                    assert(before.orders@.contains_key(any));
                    assert(before@.contains_id(any));
                }
            }
        }
    }

    /// Trades `order` once against the best order of the other side, whose
    /// key is `best`, and returns the fill. The traded quantity leaves both
    /// orders. If nothing is left of the resting order, its key and its
    /// record are removed. If only its reserve is left, it is replenished and
    /// queued anew with the next timestamp.
    fn fill_best(&mut self, order: &mut Order, best: OrderKey) -> (fill: FillEvent)
        requires
            old(self).wf(),
            old(self)@.queue(old(order).order_key.side.opposite()).len() > 0,
            best == old(self).keys(old(order).order_key.side.opposite()).last(),
            old(self)@.fill_best(*old(order)).time_counter <= u64::MAX,
        ensures
            final(self).wf(),
            final(self)@ == old(self)@.fill_best(*old(order)),
            fill == old(order).fill_event(
                old(self)@.queue(old(order).order_key.side.opposite())[0],
            ),
            *final(order) == old(order).after_fill(fill.quantity),
    {
        let ghost before = *self;
        let ghost own = order.order_key.side;
        let ghost side = own.opposite();
        let ghost keys = before.keys(side);
        let ghost queue = before@.queue(side);
        proof {
            assert(queue == resolve(keys, before.orders@));
            assert(before@.queue(own) == resolve(before.keys(own), before.orders@));
            lemma_resolve_keys(keys, before.orders@);
            lemma_resolve_pop(keys, before.orders@);
            lemma_resolve_ids(keys.drop_last(), before.orders@);
            lemma_resolve_ids(before.keys(own), before.orders@);
            lemma_queue_tail(queue, side, before@.time_counter);
            lemma_fill_best_wf(before@, *order);
            assert(resting_ok(queue[0], side, before@.time_counter));
            assert(!queue_contains_id(before@.queue(own), best.id)) by {
                if queue_contains_id(before@.queue(own), best.id) {
                    let i = choose|i: int|
                        0 <= i < before@.queue(own).len() && (
                        #[trigger] before@.queue(own)[i]).order_key.id == best.id;
                    assert(queue[0].order_key.id != before@.queue(own)[i].order_key.id);
                }
            }
            assert(queue[0].order_key == best);
            assert(!queue_contains_id(queue.drop_first(), best.id));
            assert(keys_lack(keys.drop_last(), best.id));
            assert(keys_lack(before.keys(own), best.id));
            assert(keys_agree(before.keys(own), before.orders@));
            assert(before.orders@.contains_key(best.id));
            assert(before@.contains_id(best.id));
        }
        let mut resting: Order = *self.orders.get(&best.id).unwrap();
        let fill = order.get_fill_event(&resting);
        order.visible_quantity = order.visible_quantity - fill.quantity;
        resting.visible_quantity = resting.visible_quantity - fill.quantity;
        if resting.empty() {
            self.pop(best.side);
            self.orders.remove(&best.id);
            proof {
                lemma_resolve_frame(keys.drop_last(), before.orders@, self.orders@);
                lemma_resolve_frame(before.keys(own), before.orders@, self.orders@);
                assert(self@.queue(side) == queue.drop_first());
            }
        } else if resting.visible_quantity == 0 {
            self.pop(best.side);
            resting.reload_iceberg_order();
            self.time_counter += 1;
            resting.order_key.timestamp = self.time_counter;
            self.orders.insert(best.id, resting);
            let place: usize = self.push(resting.order_key);
            proof {
                let tail = queue.drop_first();
                lemma_resolve_keys(keys.drop_last(), before.orders@);
                lemma_resolve_insert(keys.drop_last(), before.orders@, place as int, resting);
                lemma_rank_in_unique(tail, resting.order_key, keys.len() - 1 - place);
                lemma_resolve_frame(before.keys(own), before.orders@, self.orders@);
                assert(self@.queue(side) == enqueue(tail, resting));
            }
        } else {
            self.orders.insert(best.id, resting);
            proof {
                lemma_resolve_update(keys, before.orders@, resting);
                lemma_resolve_frame(before.keys(own), before.orders@, self.orders@);
                assert(self@.queue(side) == queue.update(0, resting));
            }
        }
        proof {
            assert(self@.queue(own) == before@.queue(own));
            assert(self@ == before@.fill_best(*old(order)));
            assert(keys_agree(self.keys(side), self.orders@));
            assert(keys_agree(self.keys(own), self.orders@));
            assert forall|any: u64| self.orders@.contains_key(any) implies self@.contains_id(
                any,
            ) by {
                if any != best.id {
                    assert(before.orders@.contains_key(any));
                    assert(before@.contains_id(any));
                }
            }
        }
        fill
    }

    /// Matches an incoming order against the book under price-time
    /// priority and returns the fills in the order in which they happened.
    ///
    /// As long as the other side has a best order whose price crosses that
    /// of `order`, the two trade the smaller of their visible quantities at
    /// the resting order's price. A resting order of which nothing is left
    /// leaves the book; one with only reserve left is replenished and goes
    /// to the back of its price level. When `order` can trade no further,
    /// what is left of it comes to rest. An order with nothing visible is
    /// left alone. On return `order` holds what was left of it, and the
    /// timestamp it got if it came to rest.
    pub fn process_order(&mut self, order: &mut Order) -> (fills: Vec<FillEvent>)
        requires
            old(self).wf(),
            admissible(old(self)@, *old(order)),
            match_order(old(self)@, *old(order)).book.time_counter <= u64::MAX,
        ensures
            final(self).wf(),
            final(self)@ == match_order(old(self)@, *old(order)).book,
            *final(order) == match_order(old(self)@, *old(order)).order,
            fills@ == match_order(old(self)@, *old(order)).fills,
    {
        let ghost goal = match_order(self@, *order);
        let mut match_events: Vec<FillEvent> = Vec::new();
        let side = order.order_key.side.opposite();
        proof {
            lemma_wf_live(self@);
        }
        while order.visible_quantity != 0
            invariant_except_break
                admissible(self@, *order),
                goal.book == match_order(self@, *order).book,
                goal.order == match_order(self@, *order).order,
                goal.fills == match_events@ + match_order(self@, *order).fills,
            invariant
                self.wf(),
                self@.live(),
                side == order.order_key.side.opposite(),
                goal.book.time_counter <= u64::MAX,
            ensures
                self@ == goal.book,
                *order == goal.order,
                match_events@ == goal.fills,
            decreases order.total(),
        {
            let ghost book = self@;
            let ghost incoming = *order;
            match self.peek(side) {
                None => {
                    self.add_order(order);
                    break ;
                },
                Some(best) => {
                    if !order.crosses(best) {
                        self.add_order(order);
                        break ;
                    } else {
                        proof {
                            let left = incoming.after_fill(
                                incoming.fill_event(book.queue(side)[0]).quantity,
                            ).reloaded();
                            assert(order_live(book.queue(side)[0]));
                            lemma_incoming_after_fill(incoming, book.queue(side)[0]);
                            lemma_fill_best_live(book, incoming);
                            lemma_match_counter(book.fill_best(incoming), left);
                        }
                        let fill = self.fill_best(order, best);
                        match_events.push(fill);
                        if order.is_iceberg() {
                            order.reload_iceberg_order();
                        }
                        proof {
                            lemma_wf_live(self@);
                            lemma_fill_best_wf(book, incoming);
                            assert(self@ == book.fill_best(incoming));
                            assert(*order == incoming.after_fill(fill.quantity).reloaded());
                            assert(!book.contains_id(incoming.order_key.id));
                            assert(match_events@ + match_order(self@, *order).fills == (
                            match_events@.drop_last() + (seq![fill] + match_order(
                                self@,
                                *order,
                            ).fills)));
                        }
                    }
                },
            }
        }
        match_events
    }

    /// The resting buy orders, best first.
    fn get_buy_orders(&self) -> (orders: Vec<Order>)
        requires
            self.wf(),
        ensures
            orders@ == self@.buy_orders,
    {
        resolve_best_first(&self.best_buy_orders, &self.orders)
    }

    /// The resting sell orders, best first.
    fn get_sell_orders(&self) -> (orders: Vec<Order>)
        requires
            self.wf(),
        ensures
            orders@ == self@.sell_orders,
    {
        resolve_best_first(&self.best_sell_orders, &self.orders)
    }

    /// A snapshot of both sides, each from the best order to the worst, with
    /// the current record of every resting order. The book is not changed.
    pub fn get_orders(&self) -> (content: OrderbookContent)
        requires
            self.wf(),
        ensures
            content.shows(self@),
    {
        OrderbookContent {
            buy_orders: self.get_buy_orders(),
            sell_orders: self.get_sell_orders(),
        }
    }

    /// The last timestamp handed out.
    pub fn time_counter(&self) -> (counter: u64)
        ensures
            counter == self@.time_counter,
    {
        self.time_counter
    }

    /// Whether an order with this identifier rests in the book.
    pub fn contains_order(&self, id: u64) -> (resting: bool)
        requires
            self.wf(),
        ensures
            resting == self@.contains_id(id),
    {
        proof {
            lemma_resolve_ids(self.best_buy_orders@, self.orders@);
            lemma_resolve_ids(self.best_sell_orders@, self.orders@);
            if !keys_lack(self.best_buy_orders@, id) {
                let k = choose|k: int|
                    0 <= k < self.best_buy_orders@.len() && (#[trigger] self.best_buy_orders@[k]).id
                        == id;
                assert(self.orders@.contains_key(self.best_buy_orders@[k].id));
            }
            if !keys_lack(self.best_sell_orders@, id) {
                let k = choose|k: int|
                    0 <= k < self.best_sell_orders@.len() && (
                    #[trigger] self.best_sell_orders@[k]).id == id;
                assert(self.orders@.contains_key(self.best_sell_orders@[k].id));
            }
        }
        self.orders.contains_key(&id)
    }
}

/// Inserts a key into a vector below every key that it does not outrank,
/// searching down from the best, and returns the index at which it stands.
fn insert_by_priority(keys: &mut Vec<OrderKey>, key: OrderKey) -> (place: usize)
    ensures
        place <= old(keys)@.len(),
        final(keys)@ == old(keys)@.insert(place as int, key),
        forall|k: int|
            #![trigger old(keys)@[k]]
            place <= k < old(keys)@.len() ==> !key.outranks(old(keys)@[k]),
        place > 0 ==> key.outranks(old(keys)@[place - 1]),
{
    let mut place: usize = keys.len();
    while place > 0 && !key.outranks(keys[place - 1])
        invariant
            place <= keys@.len(),
            keys@ == old(keys)@,
            forall|k: int| #![trigger keys@[k]] place <= k < keys@.len() ==> !key.outranks(keys@[k]),
        decreases place,
    {
        place = place - 1;
    }
    keys.insert(place, key);
    place
}

/// The records of the keys of a queue, from the best key to the worst.
fn resolve_best_first(keys: &Vec<OrderKey>, orders: &HashMap<u64, Order>) -> (queue: Vec<Order>)
    requires
        keys_agree(keys@, orders@),
    ensures
        queue@ == resolve(keys@, orders@),
{
    let mut queue: Vec<Order> = Vec::new();
    let mut below: usize = keys.len();
    while below > 0
        invariant
            below <= keys@.len(),
            keys_agree(keys@, orders@),
            queue@.len() == keys@.len() - below,
            forall|i: int|
                #![trigger queue@[i]]
                0 <= i < queue@.len() ==> queue@[i] == orders@[keys@[keys@.len() - 1 - i].id],
        decreases below,
    {
        below = below - 1;
        let key: OrderKey = keys[below];
        let order: Order = *orders.get(&key.id).unwrap();
        queue.push(order);
    }
    assert(queue@ =~= resolve(keys@, orders@));
    queue
}


} // verus!

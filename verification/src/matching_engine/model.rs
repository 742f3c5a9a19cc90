//! The mathematical model of the book: two queues of resting orders, each
//! held best first, and the matching of one incoming order as a function
//! from book and order to book, order and fills.

use crate::matching_engine::order::{FillEvent, Order, OrderKey, OrderSide};
use vstd::prelude::*;

verus! {

/// An order that can be traded against: something of it is visible, and
/// its reserve, if it has one, can be exposed.
pub open spec fn order_live(order: Order) -> bool {
    order.visible_quantity > 0 && order.well_formed()
}

/// Every order of the queue is live.
pub open spec fn queue_live(queue: Seq<Order>) -> bool {
    forall|i: int| #![trigger queue[i]] 0 <= i < queue.len() ==> order_live(queue[i])
}

/// What must hold of every order resting on `side` while the book's
/// timestamp counter stands at `counter`.
pub open spec fn resting_ok(order: Order, side: OrderSide, counter: nat) -> bool {
    &&& order.order_key.side == side
    &&& order_live(order)
    &&& order.order_key.timestamp <= counter
}

/// A queue of one side: every order may rest there, each order outranks all
/// that stand behind it, and no identifier and no timestamp occurs twice.
pub open spec fn queue_wf(queue: Seq<Order>, side: OrderSide, counter: nat) -> bool {
    &&& forall|i: int| #![trigger queue[i]] 0 <= i < queue.len() ==> resting_ok(queue[i], side, counter)
    &&& forall|i: int, j: int|
        #![trigger queue[i], queue[j]]
        0 <= i < j < queue.len() ==> {
            &&& queue[i].order_key.outranks(queue[j].order_key)
            &&& queue[i].order_key.id != queue[j].order_key.id
            &&& queue[i].order_key.timestamp != queue[j].order_key.timestamp
        }
}

/// Some order of the queue has this identifier.
pub open spec fn queue_contains_id(queue: Seq<Order>, id: u64) -> bool {
    exists|i: int| #![trigger queue[i]] 0 <= i < queue.len() && queue[i].order_key.id == id
}

/// The number of orders at the front of the queue that `key` does not
/// outrank: the place at which an order with that key is queued.
pub open spec fn rank_in(queue: Seq<Order>, key: OrderKey) -> nat
    decreases queue.len(),
{
    if queue.len() == 0 || key.outranks(queue[0].order_key) {
        0
    } else {
        1 + rank_in(queue.drop_first(), key)
    }
}

/// The queue with `order` inserted behind every order it does not outrank.
pub open spec fn enqueue(queue: Seq<Order>, order: Order) -> Seq<Order> {
    queue.insert(rank_in(queue, order.order_key) as int, order)
}

/// The sum of visible and hidden quantity over a queue.
pub open spec fn queue_total(queue: Seq<Order>) -> int
    decreases queue.len(),
{
    if queue.len() == 0 {
        0
    } else {
        queue[0].total() + queue_total(queue.drop_first())
    }
}

/// The sum of the quantities of a sequence of fills.
pub open spec fn fills_total(fills: Seq<FillEvent>) -> int
    decreases fills.len(),
{
    if fills.len() == 0 {
        0
    } else {
        fills[0].quantity + fills_total(fills.drop_first())
    }
}

/// The book as the matching rules see it. Each queue holds the full records
/// of the orders resting on that side, the order to be matched next in
/// front.
pub struct BookView {
    pub buy_orders: Seq<Order>,
    pub sell_orders: Seq<Order>,
    /// The last timestamp handed out.
    pub time_counter: nat,
}

/// The result of matching one incoming order.
pub struct MatchOutcome {
    /// The book afterwards.
    pub book: BookView,
    /// The incoming order as it was left: what remains of it, and the
    /// timestamp it got if it came to rest.
    pub order: Order,
    /// The fills, in the order in which they happened.
    pub fills: Seq<FillEvent>,
}

impl BookView {
    pub open spec fn empty() -> BookView {
        BookView { buy_orders: Seq::empty(), sell_orders: Seq::empty(), time_counter: 0 }
    }

    pub open spec fn queue(self, side: OrderSide) -> Seq<Order> {
        match side {
            OrderSide::Buy => self.buy_orders,
            OrderSide::Sell => self.sell_orders,
        }
    }

    pub open spec fn with_queue(self, side: OrderSide, queue: Seq<Order>) -> BookView {
        match side {
            OrderSide::Buy => BookView { buy_orders: queue, ..self },
            OrderSide::Sell => BookView { sell_orders: queue, ..self },
        }
    }

    /// An order with this identifier rests in the book.
    pub open spec fn contains_id(self, id: u64) -> bool {
        queue_contains_id(self.buy_orders, id) || queue_contains_id(self.sell_orders, id)
    }

    /// Every resting order is live. Matching is defined on such books.
    pub open spec fn live(self) -> bool {
        queue_live(self.buy_orders) && queue_live(self.sell_orders)
    }

    /// No resting order with reserve shows more than its peak size.
    pub open spec fn within_peaks(self) -> bool {
        &&& forall|i: int|
            #![trigger self.buy_orders[i]]
            0 <= i < self.buy_orders.len() ==> self.buy_orders[i].within_peak()
        &&& forall|i: int|
            #![trigger self.sell_orders[i]]
            0 <= i < self.sell_orders.len() ==> self.sell_orders[i].within_peak()
    }

    /// Both queues are well formed, no identifier and no timestamp rests on
    /// both sides, and the counter fits the timestamps' type.
    pub open spec fn wf(self) -> bool {
        &&& queue_wf(self.buy_orders, OrderSide::Buy, self.time_counter)
        &&& queue_wf(self.sell_orders, OrderSide::Sell, self.time_counter)
        &&& self.time_counter <= u64::MAX
        &&& forall|i: int, j: int|
            #![trigger self.buy_orders[i], self.sell_orders[j]]
            0 <= i < self.buy_orders.len() && 0 <= j < self.sell_orders.len() ==> {
                &&& self.buy_orders[i].order_key.id != self.sell_orders[j].order_key.id
                &&& self.buy_orders[i].order_key.timestamp
                    != self.sell_orders[j].order_key.timestamp
            }
    }

    /// The book after `order` has come to rest: it takes the next timestamp
    /// and its place in the queue of its own side.
    pub open spec fn rest(self, order: Order) -> BookView {
        let side = order.order_key.side;
        let stamp = self.time_counter + 1;
        BookView {
            time_counter: stamp,
            ..self.with_queue(side, enqueue(self.queue(side), order.stamped(stamp as u64)))
        }
    }

    /// The book after `incoming` has traded once against the best order of
    /// the other side. That order loses the traded quantity. If nothing is
    /// left of it, it leaves the book. If only its reserve is left, it is
    /// replenished, takes the next timestamp and is queued anew. Otherwise
    /// it keeps its place.
    pub open spec fn fill_best(self, incoming: Order) -> BookView {
        let side = incoming.order_key.side.opposite();
        let queue = self.queue(side);
        let left = queue[0].after_fill(incoming.fill_event(queue[0]).quantity);
        if left.spec_empty() {
            self.with_queue(side, queue.drop_first())
        } else if left.visible_quantity == 0 {
            let stamp = self.time_counter + 1;
            BookView {
                time_counter: stamp,
                ..self.with_queue(
                    side,
                    enqueue(queue.drop_first(), left.reloaded().stamped(stamp as u64)),
                )
            }
        } else {
            self.with_queue(side, queue.update(0, left))
        }
    }
}

/// The resting order that `incoming` meets first: the best of the other
/// side.
pub open spec fn best_order(book: BookView, incoming: Order) -> Order {
    book.queue(incoming.order_key.side.opposite())[0]
}

/// What `book` lets an incoming order bring: with nothing visible it brings
/// nothing and anything goes; otherwise it is well formed and its identifier
/// is not in the book.
pub open spec fn admissible(book: BookView, order: Order) -> bool {
    order.visible_quantity > 0 ==> order.well_formed() && !book.contains_id(order.order_key.id)
}

/// Matching of one incoming order against a book of live orders.
///
/// With nothing visible the order is left alone. Otherwise, as long as the
/// other side has a best order and the prices cross, the order trades
/// against it, and is replenished from its own reserve when its visible
/// quantity is used up. When the other side is empty or the prices no longer
/// cross, what is left of the order comes to rest.
pub open spec fn match_order(book: BookView, order: Order) -> MatchOutcome
    decreases order.total(),
    when book.live()
{
    let queue = book.queue(order.order_key.side.opposite());
    if order.visible_quantity == 0 {
        MatchOutcome { book, order, fills: Seq::empty() }
    } else if queue.len() == 0 || !order.crosses(queue[0].order_key) {
        MatchOutcome {
            book: book.rest(order),
            order: order.stamped((book.time_counter + 1) as u64),
            fills: Seq::empty(),
        }
    } else {
        let fill = order.fill_event(queue[0]);
        let next = match_order(book.fill_best(order), order.after_fill(fill.quantity).reloaded());
        MatchOutcome { book: next.book, order: next.order, fills: seq![fill] + next.fills }
    }
}

/// `rank_in` stops at the first order that `key` outranks.
pub proof fn lemma_rank_in(queue: Seq<Order>, key: OrderKey)
    ensures
        rank_in(queue, key) <= queue.len(),
        forall|k: int|
            #![trigger queue[k]]
            0 <= k < rank_in(queue, key) ==> !key.outranks(queue[k].order_key),
        rank_in(queue, key) < queue.len() ==> key.outranks(
            queue[rank_in(queue, key) as int].order_key,
        ),
    decreases queue.len(),
{
    if queue.len() == 0 || key.outranks(queue[0].order_key) {
    } else {
        let tail = queue.drop_first();
        lemma_rank_in(tail, key);
        assert forall|k: int| 0 <= k < rank_in(queue, key) implies !key.outranks(
            #[trigger] queue[k].order_key,
        ) by {
            if k > 0 {
                assert(queue[k] == tail[k - 1]);
            }
        }
        if rank_in(queue, key) < queue.len() {
            assert(queue[rank_in(queue, key) as int] == tail[rank_in(tail, key) as int]);
        }
    }
}

/// A place with the two properties of `lemma_rank_in` is the rank.
pub proof fn lemma_rank_in_unique(queue: Seq<Order>, key: OrderKey, place: int)
    requires
        0 <= place <= queue.len(),
        forall|k: int| #![trigger queue[k]] 0 <= k < place ==> !key.outranks(queue[k].order_key),
        place < queue.len() ==> key.outranks(queue[place].order_key),
    ensures
        rank_in(queue, key) == place,
    decreases queue.len(),
{
    if queue.len() == 0 {
    } else if key.outranks(queue[0].order_key) {
        if place > 0 {
            assert(!key.outranks(queue[0].order_key));
        }
    } else {
        let tail = queue.drop_first();
        assert forall|k: int| 0 <= k < place - 1 implies !key.outranks(
            #[trigger] tail[k].order_key,
        ) by {
            assert(tail[k] == queue[k + 1]);
        }
        if place < queue.len() {
            assert(tail[place - 1] == queue[place]);
        }
        lemma_rank_in_unique(tail, key, place - 1);
    }
}

/// Queuing an order with a fresh identifier and a timestamp later than all
/// in the queue keeps the queue well formed.
pub proof fn lemma_enqueue_wf(
    queue: Seq<Order>,
    order: Order,
    side: OrderSide,
    counter: nat,
    stamp: nat,
)
    requires
        queue_wf(queue, side, counter),
        counter < stamp,
        order.order_key.timestamp == stamp,
        resting_ok(order, side, stamp),
        !queue_contains_id(queue, order.order_key.id),
    ensures
        queue_wf(enqueue(queue, order), side, stamp),
{
    let place = rank_in(queue, order.order_key) as int;
    let after = enqueue(queue, order);
    lemma_rank_in(queue, order.order_key);
    assert forall|i: int| 0 <= i < after.len() implies resting_ok(
        #[trigger] after[i],
        side,
        stamp,
    ) by {
        if i < place {
            assert(after[i] == queue[i]);
        } else if i > place {
            assert(after[i] == queue[i - 1]);
        }
    }
    assert forall|i: int, j: int| 0 <= i < j < after.len() implies {
        &&& (#[trigger] after[i]).order_key.outranks((#[trigger] after[j]).order_key)
        &&& after[i].order_key.id != after[j].order_key.id
        &&& after[i].order_key.timestamp != after[j].order_key.timestamp
    } by {
        let a = if i < place { queue[i] } else if i == place { order } else { queue[i - 1] };
        let b = if j < place { queue[j] } else if j == place { order } else { queue[j - 1] };
        assert(after[i] == a);
        assert(after[j] == b);
        if j == place {
            assert(resting_ok(queue[i], side, counter));
            assert(!order.order_key.outranks(queue[i].order_key));
        } else if i == place {
            assert(order.order_key.outranks(queue[place].order_key));
            assert(resting_ok(queue[j - 1], side, counter));
            if j - 1 > place {
                assert(queue[place].order_key.outranks(queue[j - 1].order_key));
                assert(resting_ok(queue[place], side, counter));
            }
        }
    }
}

/// Where the orders of a queue stand after `order` has been queued.
pub proof fn lemma_enqueue_members(queue: Seq<Order>, order: Order)
    ensures
        rank_in(queue, order.order_key) <= queue.len(),
        enqueue(queue, order).len() == queue.len() + 1,
        forall|i: int|
            #![trigger enqueue(queue, order)[i]]
            0 <= i < enqueue(queue, order).len() ==> enqueue(queue, order)[i] == if i < rank_in(
                queue,
                order.order_key,
            ) {
                queue[i]
            } else if i == rank_in(queue, order.order_key) {
                order
            } else {
                queue[i - 1]
            },
{
    lemma_rank_in(queue, order.order_key);
}

/// A queue that was well formed stays so when the counter moves on.
pub proof fn lemma_queue_wf_later(queue: Seq<Order>, side: OrderSide, counter: nat, later: nat)
    requires
        queue_wf(queue, side, counter),
        counter <= later,
    ensures
        queue_wf(queue, side, later),
{
    assert forall|i: int| 0 <= i < queue.len() implies resting_ok(#[trigger] queue[i], side, later) by {
        assert(resting_ok(queue[i], side, counter));
    }
}

/// Bringing an admissible order to rest keeps the book well formed, and the
/// book then holds exactly the identifiers it held before and the order's.
pub proof fn lemma_rest_wf(book: BookView, order: Order)
    requires
        book.wf(),
        order.visible_quantity > 0,
        admissible(book, order),
        book.time_counter < u64::MAX,
    ensures
        book.rest(order).wf(),
        forall|id: u64|
            book.rest(order).contains_id(id) <==> book.contains_id(id) || id
                == order.order_key.id,
{
    let side = order.order_key.side;
    let other = side.opposite();
    let queue = book.queue(side);
    let stamp = book.time_counter + 1;
    let stamped = order.stamped(stamp as u64);
    let after = enqueue(queue, stamped);
    let next = book.rest(order);
    let place = rank_in(queue, stamped.order_key) as int;
    lemma_enqueue_wf(queue, stamped, side, book.time_counter, stamp as nat);
    lemma_enqueue_members(queue, stamped);
    lemma_queue_wf_later(book.queue(other), other, book.time_counter, stamp as nat);
    assert(next.queue(side) == after);
    assert(next.queue(other) == book.queue(other));
    assert forall|i: int, j: int|
        0 <= i < next.buy_orders.len() && 0 <= j < next.sell_orders.len() implies {
        &&& (#[trigger] next.buy_orders[i]).order_key.id != (
        #[trigger] next.sell_orders[j]).order_key.id
        &&& next.buy_orders[i].order_key.timestamp != next.sell_orders[j].order_key.timestamp
    } by {
        let k = if side == OrderSide::Buy { i } else { j };
        let l = if side == OrderSide::Buy { j } else { i };
        assert(after[k] == if k < place { queue[k] } else if k == place { stamped } else { queue[k - 1] });
        let rested = book.queue(other)[l];
        if k < place {
            assert(queue[k].order_key.id != rested.order_key.id);
        } else if k > place {
            assert(queue[k - 1].order_key.id != rested.order_key.id);
        }
    }
    assert forall|id: u64|
        next.contains_id(id) <==> book.contains_id(id) || id == order.order_key.id by {
        if queue_contains_id(after, id) {
            let i = choose|i: int| 0 <= i < after.len() && (#[trigger] after[i]).order_key.id == id;
            if i < place {
                assert(queue[i].order_key.id == id);
            } else if i > place {
                assert(queue[i - 1].order_key.id == id);
            }
        }
        if queue_contains_id(queue, id) {
            let i = choose|i: int| 0 <= i < queue.len() && (#[trigger] queue[i]).order_key.id == id;
            if i < place {
                assert(after[i].order_key.id == id);
            } else {
                assert(after[i + 1].order_key.id == id);
            }
        }
        if id == order.order_key.id {
            assert(after[place].order_key.id == id);
        }
    }
}

/// Behind the first order of a well-formed queue stands a well-formed queue
/// in which the first order's identifier does not occur.
pub proof fn lemma_queue_tail(queue: Seq<Order>, side: OrderSide, counter: nat)
    requires
        queue_wf(queue, side, counter),
        queue.len() > 0,
    ensures
        queue_wf(queue.drop_first(), side, counter),
        !queue_contains_id(queue.drop_first(), queue[0].order_key.id),
{
    let tail = queue.drop_first();
    assert forall|i: int| 0 <= i < tail.len() implies resting_ok(
        #[trigger] tail[i],
        side,
        counter,
    ) by {
        assert(tail[i] == queue[i + 1]);
    }
    assert forall|i: int, j: int| 0 <= i < j < tail.len() implies {
        &&& (#[trigger] tail[i]).order_key.outranks((#[trigger] tail[j]).order_key)
        &&& tail[i].order_key.id != tail[j].order_key.id
        &&& tail[i].order_key.timestamp != tail[j].order_key.timestamp
    } by {
        assert(tail[i] == queue[i + 1]);
        assert(tail[j] == queue[j + 1]);
    }
    if queue_contains_id(tail, queue[0].order_key.id) {
        let i = choose|i: int|
            0 <= i < tail.len() && (#[trigger] tail[i]).order_key.id == queue[0].order_key.id;
        assert(tail[i] == queue[i + 1]);
        assert(queue[0].order_key.id != queue[i + 1].order_key.id);
    }
}

/// The queue of the other side after one fill, as `fill_best` leaves it.
pub open spec fn queue_after_fill(book: BookView, incoming: Order) -> Seq<Order> {
    book.fill_best(incoming).queue(incoming.order_key.side.opposite())
}

/// Nothing is left of the best order once `incoming` has traded against it.
pub open spec fn best_order_leaves(book: BookView, incoming: Order) -> bool {
    best_order(book, incoming).after_fill(
        incoming.fill_event(best_order(book, incoming)).quantity,
    ).spec_empty()
}

/// After one fill the queue of the other side is well formed.
proof fn lemma_fill_best_queue_wf(book: BookView, incoming: Order)
    requires
        book.wf(),
        book.queue(incoming.order_key.side.opposite()).len() > 0,
        book.fill_best(incoming).time_counter <= u64::MAX,
    ensures
        queue_wf(
            queue_after_fill(book, incoming),
            incoming.order_key.side.opposite(),
            book.fill_best(incoming).time_counter,
        ),
{
    let side = incoming.order_key.side.opposite();
    let queue = book.queue(side);
    let tail = queue.drop_first();
    let best = queue[0];
    let left = best.after_fill(incoming.fill_event(best).quantity);
    let next = book.fill_best(incoming);
    let after = queue_after_fill(book, incoming);
    assert(resting_ok(best, side, book.time_counter));
    lemma_queue_tail(queue, side, book.time_counter);
    if left.spec_empty() {
        assert(after == tail);
    } else if left.visible_quantity == 0 {
        let stamp = book.time_counter + 1;
        let fresh = left.reloaded().stamped(stamp as u64);
        assert(after == enqueue(tail, fresh));
        lemma_enqueue_wf(tail, fresh, side, book.time_counter, stamp as nat);
    } else {
        assert(after == queue.update(0, left));
        assert forall|i: int| 0 <= i < after.len() implies resting_ok(
            #[trigger] after[i],
            side,
            next.time_counter,
        ) by {
            if i > 0 {
                assert(after[i] == queue[i]);
                assert(resting_ok(queue[i], side, book.time_counter));
            }
        }
        assert forall|i: int, j: int| 0 <= i < j < after.len() implies {
            &&& (#[trigger] after[i]).order_key.outranks((#[trigger] after[j]).order_key)
            &&& after[i].order_key.id != after[j].order_key.id
            &&& after[i].order_key.timestamp != after[j].order_key.timestamp
        } by {
            assert(after[j] == queue[j]);
            assert(after[i].order_key == queue[i].order_key);
        }
    }
}

/// After one fill the queue of the other side holds the identifiers it held
/// before, but for that of the best order if nothing is left of it.
proof fn lemma_fill_best_queue_ids(book: BookView, incoming: Order)
    requires
        book.wf(),
        book.queue(incoming.order_key.side.opposite()).len() > 0,
    ensures
        forall|id: u64|
            queue_contains_id(queue_after_fill(book, incoming), id) <==> queue_contains_id(
                book.queue(incoming.order_key.side.opposite()),
                id,
            ) && !(id == best_order(book, incoming).order_key.id && best_order_leaves(
                book,
                incoming,
            )),
{
    let side = incoming.order_key.side.opposite();
    let queue = book.queue(side);
    let tail = queue.drop_first();
    let best = queue[0];
    let left = best.after_fill(incoming.fill_event(best).quantity);
    let after = queue_after_fill(book, incoming);
    let fresh = left.reloaded().stamped((book.time_counter + 1) as u64);
    let place = rank_in(tail, fresh.order_key) as int;
    lemma_queue_tail(queue, side, book.time_counter);
    assert forall|id: u64|
        queue_contains_id(after, id) <==> queue_contains_id(queue, id) && !(id
            == best.order_key.id && left.spec_empty()) by {
        if left.spec_empty() {
            assert(after == tail);
            if queue_contains_id(tail, id) {
                let i = choose|i: int| 0 <= i < tail.len() && (#[trigger] tail[i]).order_key.id == id;
                assert(queue[i + 1].order_key.id == id);
            }
            if queue_contains_id(queue, id) && id != best.order_key.id {
                let i = choose|i: int|
                    0 <= i < queue.len() && (#[trigger] queue[i]).order_key.id == id;
                assert(tail[i - 1].order_key.id == id);
            }
        } else if left.visible_quantity == 0 {
            assert(after == enqueue(tail, fresh));
            lemma_enqueue_members(tail, fresh);
            if queue_contains_id(after, id) {
                let i = choose|i: int|
                    0 <= i < after.len() && (#[trigger] after[i]).order_key.id == id;
                if i < place {
                    assert(after[i] == tail[i]);
                    assert(queue[i + 1].order_key.id == id);
                } else if i == place {
                    assert(queue[0].order_key.id == id);
                } else {
                    assert(after[i] == tail[i - 1]);
                    assert(queue[i].order_key.id == id);
                }
            }
            if queue_contains_id(queue, id) {
                let i = choose|i: int|
                    0 <= i < queue.len() && (#[trigger] queue[i]).order_key.id == id;
                if i == 0 {
                    assert(after[place].order_key.id == id);
                } else if i - 1 < place {
                    assert(after[i - 1] == tail[i - 1]);
                    assert(after[i - 1].order_key.id == id);
                } else {
                    assert(after[i] == tail[i - 1]);
                    assert(after[i].order_key.id == id);
                }
            }
        } else {
            assert(after == queue.update(0, left));
            if queue_contains_id(after, id) {
                let i = choose|i: int|
                    0 <= i < after.len() && (#[trigger] after[i]).order_key.id == id;
                assert(queue[i].order_key.id == id);
            }
            if queue_contains_id(queue, id) {
                let i = choose|i: int|
                    0 <= i < queue.len() && (#[trigger] queue[i]).order_key.id == id;
                assert(after[i].order_key.id == id);
            }
        }
    }
}

/// After one fill every order of the other side's queue carries the key of
/// an order that stood there before, or the timestamp just handed out.
proof fn lemma_fill_best_queue_keys(book: BookView, incoming: Order, k: int) -> (m: int)
    requires
        book.wf(),
        book.queue(incoming.order_key.side.opposite()).len() > 0,
        book.fill_best(incoming).time_counter <= u64::MAX,
        0 <= k < queue_after_fill(book, incoming).len(),
    ensures
        0 <= m < book.queue(incoming.order_key.side.opposite()).len(),
        queue_after_fill(book, incoming)[k].order_key.id == book.queue(
            incoming.order_key.side.opposite(),
        )[m].order_key.id,
        queue_after_fill(book, incoming)[k].order_key.timestamp == book.queue(
            incoming.order_key.side.opposite(),
        )[m].order_key.timestamp || queue_after_fill(book, incoming)[k].order_key.timestamp
            == book.time_counter + 1,
{
    let side = incoming.order_key.side.opposite();
    let queue = book.queue(side);
    let tail = queue.drop_first();
    let left = queue[0].after_fill(incoming.fill_event(queue[0]).quantity);
    let after = queue_after_fill(book, incoming);
    if left.spec_empty() {
        assert(after == tail);
        k + 1
    } else if left.visible_quantity == 0 {
        let fresh = left.reloaded().stamped((book.time_counter + 1) as u64);
        assert(after == enqueue(tail, fresh));
        lemma_enqueue_members(tail, fresh);
        let place = rank_in(tail, fresh.order_key) as int;
        if k < place {
            assert(after[k] == tail[k]);
            k + 1
        } else if k == place {
            0
        } else {
            assert(after[k] == tail[k - 1]);
            k
        }
    } else {
        assert(after == queue.update(0, left));
        k
    }
}

/// One fill against the best order of the other side keeps the book well
/// formed. The incoming order's own side is untouched, and the counter moves
/// on by one at most. The book afterwards holds the identifiers it held
/// before, but for that of the best order if nothing is left of it.
pub proof fn lemma_fill_best_wf(book: BookView, incoming: Order)
    requires
        book.wf(),
        book.queue(incoming.order_key.side.opposite()).len() > 0,
        book.fill_best(incoming).time_counter <= u64::MAX,
    ensures
        book.fill_best(incoming).wf(),
        book.fill_best(incoming).queue(incoming.order_key.side) == book.queue(
            incoming.order_key.side,
        ),
        book.time_counter <= book.fill_best(incoming).time_counter <= book.time_counter + 1,
        forall|id: u64|
            book.fill_best(incoming).contains_id(id) <==> book.contains_id(id) && !(id
                == best_order(book, incoming).order_key.id && best_order_leaves(book, incoming)),
{
    let own = incoming.order_key.side;
    let side = own.opposite();
    let queue = book.queue(side);
    let best = queue[0];
    let next = book.fill_best(incoming);
    let after = queue_after_fill(book, incoming);
    assert(next.queue(own) == book.queue(own));
    lemma_queue_wf_later(book.queue(own), own, book.time_counter, next.time_counter);
    lemma_fill_best_queue_wf(book, incoming);
    lemma_fill_best_queue_ids(book, incoming);
    assert forall|id: u64| queue_contains_id(book.queue(own), id) implies id
        != best.order_key.id by {
        let i = choose|i: int|
            0 <= i < book.queue(own).len() && (#[trigger] book.queue(own)[i]).order_key.id == id;
        assert(queue[0].order_key.id != book.queue(own)[i].order_key.id);
    }
    assert forall|i: int, j: int|
        0 <= i < next.buy_orders.len() && 0 <= j < next.sell_orders.len() implies {
        &&& (#[trigger] next.buy_orders[i]).order_key.id != (
        #[trigger] next.sell_orders[j]).order_key.id
        &&& next.buy_orders[i].order_key.timestamp != next.sell_orders[j].order_key.timestamp
    } by {
        let k = if side == OrderSide::Buy { i } else { j };
        let l = if side == OrderSide::Buy { j } else { i };
        let m = lemma_fill_best_queue_keys(book, incoming, k);
        let rested = book.queue(own)[l];
        assert(queue[m].order_key.id != rested.order_key.id);
        assert(resting_ok(rested, own, book.time_counter));
    }
}

/// A well-formed book holds live orders only.
pub proof fn lemma_wf_live(book: BookView)
    requires
        book.wf(),
    ensures
        book.live(),
{
    assert forall|i: int| 0 <= i < book.buy_orders.len() implies order_live(
        #[trigger] book.buy_orders[i],
    ) by {
        assert(resting_ok(book.buy_orders[i], OrderSide::Buy, book.time_counter));
    }
    assert forall|i: int| 0 <= i < book.sell_orders.len() implies order_live(
        #[trigger] book.sell_orders[i],
    ) by {
        assert(resting_ok(book.sell_orders[i], OrderSide::Sell, book.time_counter));
    }
}

/// Bringing a live order to rest leaves every resting order live.
pub proof fn lemma_rest_live(book: BookView, order: Order)
    requires
        book.live(),
        order_live(order),
    ensures
        book.rest(order).live(),
        book.rest(order).time_counter == book.time_counter + 1,
{
    let side = order.order_key.side;
    let queue = book.queue(side);
    let stamped = order.stamped((book.time_counter + 1) as u64);
    let after = enqueue(queue, stamped);
    lemma_enqueue_members(queue, stamped);
    assert(book.rest(order).queue(side) == after);
    assert forall|i: int| 0 <= i < after.len() implies order_live(#[trigger] after[i]) by {
        let place = rank_in(queue, stamped.order_key) as int;
        if i < place {
            assert(order_live(queue[i]));
        } else if i > place {
            assert(order_live(queue[i - 1]));
        }
    }
}

/// One fill leaves every resting order live, and moves the counter on by
/// one at most.
pub proof fn lemma_fill_best_live(book: BookView, incoming: Order)
    requires
        book.live(),
        book.queue(incoming.order_key.side.opposite()).len() > 0,
    ensures
        book.fill_best(incoming).live(),
        book.time_counter <= book.fill_best(incoming).time_counter <= book.time_counter + 1,
{
    let side = incoming.order_key.side.opposite();
    let queue = book.queue(side);
    let tail = queue.drop_first();
    let left = queue[0].after_fill(incoming.fill_event(queue[0]).quantity);
    let next = book.fill_best(incoming);
    let after = next.queue(side);
    assert(order_live(queue[0]));
    assert(next.queue(incoming.order_key.side) == book.queue(incoming.order_key.side));
    assert forall|i: int| 0 <= i < after.len() implies order_live(#[trigger] after[i]) by {
        if left.spec_empty() {
            assert(after[i] == queue[i + 1]);
        } else if left.visible_quantity == 0 {
            let fresh = left.reloaded().stamped((book.time_counter + 1) as u64);
            lemma_enqueue_members(tail, fresh);
            let place = rank_in(tail, fresh.order_key) as int;
            if i < place {
                assert(after[i] == queue[i + 1]);
            } else if i > place {
                assert(after[i] == queue[i]);
            }
        } else {
            if i > 0 {
                assert(after[i] == queue[i]);
            }
        }
    }
}

} // verus!

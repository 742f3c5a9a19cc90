//! Laws of the matching rules, proved over the model of the book.

use crate::matching_engine::model::{
    admissible, best_order, best_order_leaves, enqueue, fills_total, lemma_enqueue_members,
    lemma_fill_best_live, lemma_fill_best_wf, lemma_rest_live, lemma_rest_wf, lemma_wf_live,
    match_order, order_live, queue_after_fill, queue_contains_id, queue_total, rank_in,
    resting_ok, BookView,
};
use crate::matching_engine::order::{FillEvent, Order, OrderSide};
use vstd::prelude::*;

verus! {

/// What is left of an incoming order after one fill: the traded quantity is
/// gone from it, it keeps its key, and it is still well formed.
pub proof fn lemma_incoming_after_fill(order: Order, resting: Order)
    requires
        order.visible_quantity > 0,
        order.well_formed(),
        order_live(resting),
    ensures
        ({
            let fill = order.fill_event(resting);
            let left = order.after_fill(fill.quantity).reloaded();
            &&& 0 < fill.quantity <= order.visible_quantity
            &&& fill.quantity <= resting.visible_quantity
            &&& left.total() == order.total() - fill.quantity
            &&& left.order_key == order.order_key
            &&& left.peak_size == order.peak_size
            &&& left.well_formed()
            &&& left.visible_quantity == 0 ==> left.hidden_reserve == 0
        }),
{
}

/// Timestamps are handed out one by one and never taken back: matching
/// moves the counter on by at most the incoming order's total quantity.
pub proof fn lemma_match_counter(book: BookView, order: Order)
    requires
        book.live(),
        order.visible_quantity > 0 ==> order.well_formed(),
    ensures
        book.time_counter <= match_order(book, order).book.time_counter,
        match_order(book, order).book.time_counter <= book.time_counter + order.total(),
        order.visible_quantity == 0 ==> match_order(book, order).book == book,
    decreases order.total(),
{
    let queue = book.queue(order.order_key.side.opposite());
    if order.visible_quantity == 0 {
    } else if queue.len() == 0 || !order.crosses(queue[0].order_key) {
        lemma_rest_live(book, order);
    } else {
        let fill = order.fill_event(queue[0]);
        let left = order.after_fill(fill.quantity).reloaded();
        assert(order_live(queue[0]));
        lemma_incoming_after_fill(order, queue[0]);
        lemma_fill_best_live(book, order);
        lemma_match_counter(book.fill_best(order), left);
    }
}

/// Matching keeps a well-formed book well formed, as long as the counter
/// stays within the timestamps' type, and brings no identifier into the book
/// but the incoming order's.
pub proof fn lemma_match_wf(book: BookView, order: Order)
    requires
        book.wf(),
        admissible(book, order),
        match_order(book, order).book.time_counter <= u64::MAX,
    ensures
        match_order(book, order).book.wf(),
        match_order(book, order).order.order_key.id == order.order_key.id,
        forall|id: u64|
            match_order(book, order).book.contains_id(id) ==> book.contains_id(id) || id
                == order.order_key.id,
    decreases order.total(),
{
    let queue = book.queue(order.order_key.side.opposite());
    lemma_wf_live(book);
    if order.visible_quantity == 0 {
    } else if queue.len() == 0 || !order.crosses(queue[0].order_key) {
        lemma_rest_wf(book, order);
    } else {
        let fill = order.fill_event(queue[0]);
        let left = order.after_fill(fill.quantity).reloaded();
        let next = book.fill_best(order);
        assert(order_live(queue[0]));
        lemma_incoming_after_fill(order, queue[0]);
        lemma_fill_best_live(book, order);
        lemma_match_counter(next, left);
        lemma_fill_best_wf(book, order);
        lemma_match_wf(next, left);
    }
}

/// Inserting an order into a queue adds its total to the queue's.
pub proof fn lemma_queue_total_insert(queue: Seq<Order>, place: int, order: Order)
    requires
        0 <= place <= queue.len(),
    ensures
        queue_total(queue.insert(place, order)) == queue_total(queue) + order.total(),
    decreases queue.len(),
{
    let after = queue.insert(place, order);
    if place == 0 {
        assert(after.drop_first() =~= queue);
    } else {
        assert(after[0] == queue[0]);
        assert(after.drop_first() =~= queue.drop_first().insert(place - 1, order));
        lemma_queue_total_insert(queue.drop_first(), place - 1, order);
    }
}

/// The fills of a sequence that starts with `fill` add up to its quantity
/// and the rest.
pub proof fn lemma_fills_total_first(fill: FillEvent, rest: Seq<FillEvent>)
    ensures
        fills_total(seq![fill] + rest) == fill.quantity + fills_total(rest),
{
    assert((seq![fill] + rest).drop_first() =~= rest);
}

/// Conservation in one fill: the traded quantity leaves the incoming order
/// and the queue of the other side, each by exactly the fill's quantity,
/// whether the resting order stays, leaves or is replenished. The incoming
/// order's own side is untouched.
pub proof fn lemma_fill_conserves(book: BookView, incoming: Order)
    requires
        book.live(),
        book.queue(incoming.order_key.side.opposite()).len() > 0,
        incoming.visible_quantity > 0,
        incoming.well_formed(),
    ensures
        ({
            let fill = incoming.fill_event(best_order(book, incoming));
            let left = incoming.after_fill(fill.quantity).reloaded();
            &&& fill.quantity == incoming.visible_quantity || fill.quantity == best_order(
                book,
                incoming,
            ).visible_quantity
            &&& left.total() == incoming.total() - fill.quantity
            &&& queue_total(queue_after_fill(book, incoming)) == queue_total(
                book.queue(incoming.order_key.side.opposite()),
            ) - fill.quantity
            &&& book.fill_best(incoming).queue(incoming.order_key.side) == book.queue(
                incoming.order_key.side,
            )
        }),
{
    let side = incoming.order_key.side.opposite();
    let queue = book.queue(side);
    let tail = queue.drop_first();
    let best = queue[0];
    let fill = incoming.fill_event(best);
    let left = best.after_fill(fill.quantity);
    let after = queue_after_fill(book, incoming);
    assert(order_live(best));
    lemma_incoming_after_fill(incoming, best);
    assert(book.fill_best(incoming).queue(incoming.order_key.side) == book.queue(
        incoming.order_key.side,
    ));
    if left.spec_empty() {
        assert(after == tail);
    } else if left.visible_quantity == 0 {
        let fresh = left.reloaded().stamped((book.time_counter + 1) as u64);
        assert(after == enqueue(tail, fresh));
        lemma_enqueue_members(tail, fresh);
        lemma_queue_total_insert(tail, rank_in(tail, fresh.order_key) as int, fresh);
    } else {
        assert(after == queue.update(0, left));
        assert(after.drop_first() =~= tail);
    }
}

/// Quantity conservation over a whole call. What the incoming order brought
/// is what was traded and what is left of it. The other side loses exactly
/// what was traded. The incoming order's own side gains exactly what came to
/// rest.
pub proof fn lemma_match_conserves(book: BookView, order: Order)
    requires
        book.live(),
        order.visible_quantity > 0 ==> order.well_formed(),
    ensures
        ({
            let out = match_order(book, order);
            let own = order.order_key.side;
            &&& order.total() == fills_total(out.fills) + out.order.total()
            &&& queue_total(out.book.queue(own.opposite())) == queue_total(
                book.queue(own.opposite()),
            ) - fills_total(out.fills)
            &&& queue_total(out.book.queue(own)) == queue_total(book.queue(own)) + if out.order
                .visible_quantity > 0 {
                out.order.total()
            } else {
                0
            }
        }),
    decreases order.total(),
{
    let own = order.order_key.side;
    let queue = book.queue(own.opposite());
    if order.visible_quantity == 0 {
    } else if queue.len() == 0 || !order.crosses(queue[0].order_key) {
        let stamped = order.stamped((book.time_counter + 1) as u64);
        lemma_enqueue_members(book.queue(own), stamped);
        lemma_queue_total_insert(
            book.queue(own),
            rank_in(book.queue(own), stamped.order_key) as int,
            stamped,
        );
        assert(book.rest(order).queue(own) == enqueue(book.queue(own), stamped));
        assert(book.rest(order).queue(own.opposite()) == queue);
    } else {
        let fill = order.fill_event(queue[0]);
        let left = order.after_fill(fill.quantity).reloaded();
        let next = book.fill_best(order);
        assert(order_live(queue[0]));
        lemma_incoming_after_fill(order, queue[0]);
        lemma_fill_best_live(book, order);
        lemma_fill_conserves(book, order);
        lemma_match_conserves(next, left);
        lemma_fills_total_first(fill, match_order(next, left).fills);
    }
}

/// No partial leakage. A well-formed order that is new to the book, and
/// that does not arrive with a reserve behind nothing visible, ends in
/// exactly one of two ways. Either nothing is left of it, visible or hidden,
/// and it is not in the book; or something visible is left, and the order as
/// it was left rests in the queue of its own side.
pub proof fn lemma_match_no_leak(book: BookView, order: Order)
    requires
        book.wf(),
        order.well_formed(),
        !book.contains_id(order.order_key.id),
        order.visible_quantity > 0 || order.hidden_reserve == 0,
        match_order(book, order).book.time_counter <= u64::MAX,
    ensures
        ({
            let out = match_order(book, order);
            if out.order.visible_quantity == 0 {
                out.order.spec_empty() && !out.book.contains_id(order.order_key.id)
            } else {
                exists|i: int|
                    0 <= i < out.book.queue(order.order_key.side).len() && #[trigger] out.book.queue(
                        order.order_key.side,
                    )[i] == out.order
            }
        }),
    decreases order.total(),
{
    let own = order.order_key.side;
    let queue = book.queue(own.opposite());
    lemma_wf_live(book);
    if order.visible_quantity == 0 {
    } else if queue.len() == 0 || !order.crosses(queue[0].order_key) {
        let stamped = order.stamped((book.time_counter + 1) as u64);
        lemma_enqueue_members(book.queue(own), stamped);
        let after = book.rest(order).queue(own);
        assert(after == enqueue(book.queue(own), stamped));
        assert(after[rank_in(book.queue(own), stamped.order_key) as int] == stamped);
    } else {
        let fill = order.fill_event(queue[0]);
        let left = order.after_fill(fill.quantity).reloaded();
        let next = book.fill_best(order);
        assert(order_live(queue[0]));
        lemma_incoming_after_fill(order, queue[0]);
        lemma_fill_best_live(book, order);
        lemma_match_counter(next, left);
        lemma_fill_best_wf(book, order);
        lemma_match_no_leak(next, left);
    }
}

/// Where the order at place `i` of the other side's queue stands after one
/// fill, unless it is the best order and leaves.
pub open spec fn place_after_fill(book: BookView, incoming: Order, i: int) -> int {
    let tail = book.queue(incoming.order_key.side.opposite()).drop_first();
    let left = best_order(book, incoming).after_fill(
        incoming.fill_event(best_order(book, incoming)).quantity,
    );
    if left.spec_empty() {
        i - 1
    } else if left.visible_quantity == 0 {
        let place = rank_in(
            tail,
            left.reloaded().stamped((book.time_counter + 1) as u64).order_key,
        ) as int;
        if i == 0 {
            place
        } else if i - 1 < place {
            i - 1
        } else {
            i
        }
    } else {
        i
    }
}

/// An order of the other side's queue is found again after one fill at
/// `place_after_fill`, unless it is the best order and leaves. Behind the
/// best order it is unchanged; the best order keeps its identifier, side,
/// price and peak size, and if its visible quantity was within its peak
/// size, it still is.
pub proof fn lemma_place_after_fill(book: BookView, incoming: Order, i: int)
    requires
        book.live(),
        0 <= i < book.queue(incoming.order_key.side.opposite()).len(),
        !(i == 0 && best_order_leaves(book, incoming)),
    ensures
        ({
            let before = book.queue(incoming.order_key.side.opposite())[i];
            let place = place_after_fill(book, incoming, i);
            let after = queue_after_fill(book, incoming);
            &&& 0 <= place < after.len()
            &&& i > 0 ==> after[place] == before
            &&& after[place].order_key.id == before.order_key.id
            &&& after[place].order_key.side == before.order_key.side
            &&& after[place].order_key.price == before.order_key.price
            &&& after[place].peak_size == before.peak_size
            &&& before.visible_quantity <= before.peak_size ==> after[place].visible_quantity
                <= before.peak_size
        }),
{
    let queue = book.queue(incoming.order_key.side.opposite());
    let tail = queue.drop_first();
    let left = queue[0].after_fill(incoming.fill_event(queue[0]).quantity);
    let after = queue_after_fill(book, incoming);
    assert(order_live(queue[0]));
    if left.spec_empty() {
        assert(after == tail);
    } else if left.visible_quantity == 0 {
        let fresh = left.reloaded().stamped((book.time_counter + 1) as u64);
        assert(after == enqueue(tail, fresh));
        lemma_enqueue_members(tail, fresh);
        let place = place_after_fill(book, incoming, i);
        if i > 0 {
            assert(after[place] == tail[i - 1]);
        }
    } else {
        assert(after == queue.update(0, left));
    }
}

/// One fill does not change the order in which the orders behind the best
/// order stand.
pub proof fn lemma_place_after_fill_ordered(book: BookView, incoming: Order, i: int, j: int)
    requires
        0 < i < j < book.queue(incoming.order_key.side.opposite()).len(),
    ensures
        place_after_fill(book, incoming, i) < place_after_fill(book, incoming, j),
{
}

/// Every fill of a call is a trade of the incoming order against an order
/// that rested on the other side when the call began: it names the two, its
/// quantity is positive, and its price is the resting order's.
pub proof fn lemma_fill_names_resting(book: BookView, order: Order, n: int) -> (i: int)
    requires
        book.wf(),
        admissible(book, order),
        match_order(book, order).book.time_counter <= u64::MAX,
        0 <= n < match_order(book, order).fills.len(),
    ensures
        0 <= i < book.queue(order.order_key.side.opposite()).len(),
        ({
            let fill = match_order(book, order).fills[n];
            let resting = book.queue(order.order_key.side.opposite())[i];
            &&& fill.order_id == order.order_key.id
            &&& fill.matched_order_id == resting.order_key.id
            &&& fill.price == resting.order_key.price
            &&& fill.quantity > 0
            &&& order.crosses(resting.order_key)
        }),
    decreases order.total(),
{
    let side = order.order_key.side.opposite();
    let queue = book.queue(side);
    lemma_wf_live(book);
    assert(order.visible_quantity > 0 && queue.len() > 0 && order.crosses(queue[0].order_key));
    let fill = order.fill_event(queue[0]);
    let left = order.after_fill(fill.quantity).reloaded();
    let next = book.fill_best(order);
    assert(resting_ok(queue[0], side, book.time_counter));
    lemma_incoming_after_fill(order, queue[0]);
    if n == 0 {
        0
    } else {
        lemma_fill_best_live(book, order);
        lemma_match_counter(next, left);
        lemma_fill_best_wf(book, order);
        assert(match_order(book, order).fills[n] == match_order(next, left).fills[n - 1]);
        let k = lemma_fill_names_resting(next, left, n - 1);
        let after = queue_after_fill(book, order);
        let id = after[k].order_key.id;
        assert(queue_contains_id(after, id));
        assert(next.contains_id(id));
        assert(book.contains_id(id));
        assert(queue_contains_id(queue, id)) by {
            if queue_contains_id(book.queue(order.order_key.side), id) {
                assert(next.queue(order.order_key.side) == book.queue(order.order_key.side));
                let a = choose|a: int|
                    0 <= a < next.queue(order.order_key.side).len() && (#[trigger] next.queue(
                        order.order_key.side,
                    )[a]).order_key.id == id;
                if side == OrderSide::Buy {
                    assert(next.buy_orders[k].order_key.id != next.sell_orders[a].order_key.id);
                } else {
                    assert(next.buy_orders[a].order_key.id != next.sell_orders[k].order_key.id);
                }
            }
        }
        let i = choose|i: int| 0 <= i < queue.len() && (#[trigger] queue[i]).order_key.id == id;
        assert(!(i == 0 && best_order_leaves(book, order)));
        lemma_place_after_fill(book, order, i);
        let place = place_after_fill(book, order, i);
        assert(place == k) by {
            lemma_same_id_same_place(next, side, place, k);
        }
        assert(resting_ok(queue[i], side, book.time_counter));
        assert(resting_ok(after[k], side, next.time_counter));
        if i == 0 {
            assert(after[k].order_key.price == queue[0].order_key.price);
        }
        i
    }
}

/// In a well-formed book two places of one queue that hold the same
/// identifier are the same place.
pub proof fn lemma_same_id_same_place(book: BookView, side: OrderSide, a: int, b: int)
    requires
        book.wf(),
        0 <= a < book.queue(side).len(),
        0 <= b < book.queue(side).len(),
        book.queue(side)[a].order_key.id == book.queue(side)[b].order_key.id,
    ensures
        a == b,
{
    let queue = book.queue(side);
    if a < b {
        assert(queue[a].order_key.id != queue[b].order_key.id);
    } else if b < a {
        assert(queue[b].order_key.id != queue[a].order_key.id);
    }
}

/// Queue order is match order: of two orders resting on the other side, the
/// one that stands nearer the front is traded against first. Whenever a fill
/// of the call is against the order at place `j`, an earlier fill of the
/// call is against the order at place `i < j`.
pub proof fn lemma_matched_in_queue_order(
    book: BookView,
    order: Order,
    i: int,
    j: int,
    n: int,
) -> (m: int)
    requires
        book.wf(),
        admissible(book, order),
        match_order(book, order).book.time_counter <= u64::MAX,
        0 <= i < j < book.queue(order.order_key.side.opposite()).len(),
        0 <= n < match_order(book, order).fills.len(),
        match_order(book, order).fills[n].matched_order_id == book.queue(
            order.order_key.side.opposite(),
        )[j].order_key.id,
    ensures
        0 <= m < n,
        match_order(book, order).fills[m].matched_order_id == book.queue(
            order.order_key.side.opposite(),
        )[i].order_key.id,
    decreases order.total(),
{
    let side = order.order_key.side.opposite();
    let queue = book.queue(side);
    lemma_wf_live(book);
    assert(order.visible_quantity > 0 && queue.len() > 0 && order.crosses(queue[0].order_key));
    let fill = order.fill_event(queue[0]);
    let left = order.after_fill(fill.quantity).reloaded();
    let next = book.fill_best(order);
    assert(queue[0].order_key.id != queue[j].order_key.id);
    assert(n > 0);
    if i == 0 {
        0
    } else {
        assert(order_live(queue[0]));
        lemma_incoming_after_fill(order, queue[0]);
        lemma_fill_best_live(book, order);
        lemma_match_counter(next, left);
        lemma_fill_best_wf(book, order);
        lemma_place_after_fill(book, order, i);
        lemma_place_after_fill(book, order, j);
        lemma_place_after_fill_ordered(book, order, i, j);
        assert(match_order(book, order).fills[n] == match_order(next, left).fills[n - 1]);
        let m = lemma_matched_in_queue_order(
            next,
            left,
            place_after_fill(book, order, i),
            place_after_fill(book, order, j),
            n - 1,
        );
        assert(match_order(book, order).fills[m + 1] == match_order(next, left).fills[m]);
        m + 1
    }
}

/// Price priority. Of two orders resting on the same side at different
/// prices, the one with the more favourable price (higher for a buy, lower
/// for a sell) is matched before the other, wherever the two came from:
/// every fill against the worse-priced order is preceded, within the call,
/// by a fill against the better-priced one.
pub proof fn lemma_price_priority(book: BookView, order: Order, i: int, j: int, n: int)
    requires
        book.wf(),
        admissible(book, order),
        match_order(book, order).book.time_counter <= u64::MAX,
        0 <= i < book.queue(order.order_key.side.opposite()).len(),
        0 <= j < book.queue(order.order_key.side.opposite()).len(),
        book.queue(order.order_key.side.opposite())[i].order_key.better_priced(
            book.queue(order.order_key.side.opposite())[j].order_key,
        ),
        0 <= n < match_order(book, order).fills.len(),
        match_order(book, order).fills[n].matched_order_id == book.queue(
            order.order_key.side.opposite(),
        )[j].order_key.id,
    ensures
        exists|m: int|
            0 <= m < n && (#[trigger] match_order(book, order).fills[m]).matched_order_id
                == book.queue(order.order_key.side.opposite())[i].order_key.id,
{
    let side = order.order_key.side.opposite();
    let queue = book.queue(side);
    assert(resting_ok(queue[i], side, book.time_counter));
    assert(resting_ok(queue[j], side, book.time_counter));
    if j < i {
        assert(queue[j].order_key.outranks(queue[i].order_key));
    }
    let m = lemma_matched_in_queue_order(book, order, i, j, n);
}

/// Time priority. Of two orders resting on the same side at the same price,
/// the one with the earlier timestamp, that is the one that was inserted or
/// last replenished earlier, is matched first: every fill against the later
/// one is preceded, within the call, by a fill against the earlier one.
pub proof fn lemma_time_priority(book: BookView, order: Order, i: int, j: int, n: int)
    requires
        book.wf(),
        admissible(book, order),
        match_order(book, order).book.time_counter <= u64::MAX,
        0 <= i < book.queue(order.order_key.side.opposite()).len(),
        0 <= j < book.queue(order.order_key.side.opposite()).len(),
        book.queue(order.order_key.side.opposite())[i].order_key.price == book.queue(
            order.order_key.side.opposite(),
        )[j].order_key.price,
        book.queue(order.order_key.side.opposite())[i].order_key.timestamp < book.queue(
            order.order_key.side.opposite(),
        )[j].order_key.timestamp,
        0 <= n < match_order(book, order).fills.len(),
        match_order(book, order).fills[n].matched_order_id == book.queue(
            order.order_key.side.opposite(),
        )[j].order_key.id,
    ensures
        exists|m: int|
            0 <= m < n && (#[trigger] match_order(book, order).fills[m]).matched_order_id
                == book.queue(order.order_key.side.opposite())[i].order_key.id,
{
    let side = order.order_key.side.opposite();
    let queue = book.queue(side);
    if j < i {
        assert(queue[j].order_key.outranks(queue[i].order_key));
    }
    let m = lemma_matched_in_queue_order(book, order, i, j, n);
}

/// An order that is queued takes the next timestamp, which is later than
/// that of every order in the book; so among orders of one price the queue
/// is in the order of arrival and replenishment.
pub proof fn lemma_rest_is_latest(book: BookView, order: Order, i: int)
    requires
        book.wf(),
        book.time_counter < u64::MAX,
        0 <= i < book.queue(order.order_key.side).len(),
    ensures
        book.queue(order.order_key.side)[i].order_key.timestamp < order.stamped(
            (book.time_counter + 1) as u64,
        ).order_key.timestamp,
{
    assert(resting_ok(
        book.queue(order.order_key.side)[i],
        order.order_key.side,
        book.time_counter,
    ));
}

/// One fill is never larger than the visible quantity of either order.
pub proof fn lemma_fill_within_visible(incoming: Order, resting: Order)
    ensures
        incoming.fill_event(resting).quantity <= incoming.visible_quantity,
        incoming.fill_event(resting).quantity <= resting.visible_quantity,
        resting.after_fill(incoming.fill_event(resting).quantity).hidden_reserve
            == resting.hidden_reserve,
{
}

/// Iceberg invisibility in the book. If no resting order with reserve shows
/// more than its peak size, and the incoming order does not either, then
/// after the call no resting order does: the visible quantity of a resting
/// iceberg order never holds any of its reserve beyond the peak size.
pub proof fn lemma_match_within_peaks(book: BookView, order: Order)
    requires
        book.live(),
        order.visible_quantity > 0 ==> order.well_formed(),
        book.within_peaks(),
        order.within_peak(),
    ensures
        match_order(book, order).book.within_peaks(),
    decreases order.total(),
{
    let own = order.order_key.side;
    let side = own.opposite();
    let queue = book.queue(side);
    if order.visible_quantity == 0 {
    } else if queue.len() == 0 || !order.crosses(queue[0].order_key) {
        let stamped = order.stamped((book.time_counter + 1) as u64);
        let after = book.rest(order).queue(own);
        lemma_enqueue_members(book.queue(own), stamped);
        assert(after == enqueue(book.queue(own), stamped));
        assert(book.rest(order).queue(side) == queue);
        assert forall|i: int| 0 <= i < after.len() implies (#[trigger] after[i]).within_peak() by {
            let place = rank_in(book.queue(own), stamped.order_key) as int;
            if i < place {
                assert(book.queue(own)[i].within_peak());
            } else if i > place {
                assert(book.queue(own)[i - 1].within_peak());
            }
        }
    } else {
        let fill = order.fill_event(queue[0]);
        let left = order.after_fill(fill.quantity).reloaded();
        let next = book.fill_best(order);
        assert(order_live(queue[0]));
        lemma_incoming_after_fill(order, queue[0]);
        lemma_fill_best_live(book, order);
        lemma_fill_best_within_peaks(book, order);
        lemma_match_within_peaks(next, left);
    }
}

/// One fill leaves no resting order with reserve showing more than its peak
/// size, if none did before.
pub proof fn lemma_fill_best_within_peaks(book: BookView, incoming: Order)
    requires
        book.live(),
        book.within_peaks(),
        book.queue(incoming.order_key.side.opposite()).len() > 0,
    ensures
        book.fill_best(incoming).within_peaks(),
{
    let own = incoming.order_key.side;
    let side = own.opposite();
    let queue = book.queue(side);
    let tail = queue.drop_first();
    let left = queue[0].after_fill(incoming.fill_event(queue[0]).quantity);
    let next = book.fill_best(incoming);
    let after = queue_after_fill(book, incoming);
    assert(order_live(queue[0]));
    assert(queue[0].within_peak());
    assert(next.queue(own) == book.queue(own));
    assert forall|i: int| 0 <= i < after.len() implies (#[trigger] after[i]).within_peak() by {
        if left.spec_empty() {
            assert(after[i] == queue[i + 1]);
        } else if left.visible_quantity == 0 {
            let fresh = left.reloaded().stamped((book.time_counter + 1) as u64);
            lemma_enqueue_members(tail, fresh);
            let place = rank_in(tail, fresh.order_key) as int;
            if i < place {
                assert(after[i] == queue[i + 1]);
            } else if i > place {
                assert(after[i] == queue[i]);
            }
        } else {
            if i > 0 {
                assert(after[i] == queue[i]);
            }
        }
    }
}

/// Iceberg invisibility in the fills. Against a resting order whose visible
/// quantity is within its peak size, no fill of the call is larger than the
/// peak size, however much reserve stands behind it: the reserve is traded
/// only one replenished slice at a time.
pub proof fn lemma_fills_within_peak(book: BookView, order: Order, i: int, n: int)
    requires
        book.wf(),
        admissible(book, order),
        match_order(book, order).book.time_counter <= u64::MAX,
        0 <= i < book.queue(order.order_key.side.opposite()).len(),
        book.queue(order.order_key.side.opposite())[i].visible_quantity <= book.queue(
            order.order_key.side.opposite(),
        )[i].peak_size,
        0 <= n < match_order(book, order).fills.len(),
        match_order(book, order).fills[n].matched_order_id == book.queue(
            order.order_key.side.opposite(),
        )[i].order_key.id,
    ensures
        match_order(book, order).fills[n].quantity <= book.queue(
            order.order_key.side.opposite(),
        )[i].peak_size,
    decreases order.total(),
{
    let side = order.order_key.side.opposite();
    let queue = book.queue(side);
    lemma_wf_live(book);
    assert(order.visible_quantity > 0 && queue.len() > 0 && order.crosses(queue[0].order_key));
    let fill = order.fill_event(queue[0]);
    let left = order.after_fill(fill.quantity).reloaded();
    let next = book.fill_best(order);
    if n == 0 {
        lemma_same_id_same_place(book, side, 0, i);
    } else {
        assert(order_live(queue[0]));
        lemma_incoming_after_fill(order, queue[0]);
        lemma_fill_best_live(book, order);
        lemma_match_counter(next, left);
        lemma_fill_best_wf(book, order);
        assert(match_order(book, order).fills[n] == match_order(next, left).fills[n - 1]);
        let k = lemma_fill_names_resting(next, left, n - 1);
        let after = queue_after_fill(book, order);
        assert(queue_contains_id(after, queue[i].order_key.id));
        assert(next.contains_id(queue[i].order_key.id));
        assert(!(i == 0 && best_order_leaves(book, order)));
        lemma_place_after_fill(book, order, i);
        lemma_fills_within_peak(next, left, place_after_fill(book, order, i), n - 1);
    }
}

} // verus!

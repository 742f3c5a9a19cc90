use order_matching::matching_engine::order::{FillEvent, Order, OrderKey, OrderSide};
use order_matching::matching_engine::orderbook::Orderbook;

fn plain(id: u64, side: OrderSide, price: u64, quantity: u64) -> Order {
    Order {
        order_key: OrderKey { id, side, price, timestamp: 0 },
        visible_quantity: quantity,
        hidden_reserve: 0,
        peak_size: 0,
    }
}

fn iceberg(id: u64, side: OrderSide, price: u64, visible: u64, hidden: u64, peak: u64) -> Order {
    Order {
        order_key: OrderKey { id, side, price, timestamp: 0 },
        visible_quantity: visible,
        hidden_reserve: hidden,
        peak_size: peak,
    }
}

fn stamped(order: Order, timestamp: u64) -> Order {
    Order { order_key: OrderKey { timestamp, ..order.order_key }, ..order }
}

fn fill(order_id: u64, matched_order_id: u64, quantity: u64, price: u64) -> FillEvent {
    FillEvent { order_id, matched_order_id, quantity, price }
}

fn ids(orders: &Vec<Order>) -> Vec<u64> {
    let mut out = Vec::new();
    for o in orders {
        out.push(o.order_key.id);
    }
    out
}

fn total(orders: &Vec<Order>) -> u64 {
    let mut sum = 0;
    for o in orders {
        sum += o.visible_quantity + o.hidden_reserve;
    }
    sum
}

fn traded(fills: &Vec<FillEvent>) -> u64 {
    let mut sum = 0;
    for f in fills {
        sum += f.quantity;
    }
    sum
}

#[test]
fn new_book_is_empty() {
    let book = Orderbook::new();
    let content = book.get_orders();
    assert!(content.buy_orders.is_empty());
    assert!(content.sell_orders.is_empty());
    assert_eq!(book.time_counter(), 0);
    assert!(!book.contains_order(1));
}

#[test]
fn buy_rests_in_empty_book() {
    let mut book = Orderbook::new();
    let mut buy = plain(1, OrderSide::Buy, 100, 10);
    let fills = book.process_order(&mut buy);
    assert!(fills.is_empty());
    let content = book.get_orders();
    assert_eq!(content.buy_orders, vec![stamped(plain(1, OrderSide::Buy, 100, 10), 1)]);
    assert!(content.sell_orders.is_empty());
    assert_eq!(buy, stamped(plain(1, OrderSide::Buy, 100, 10), 1));
    assert!(book.contains_order(1));
    assert_eq!(book.time_counter(), 1);
}

#[test]
fn buy_fills_resting_sell_and_rests_remainder() {
    let mut book = Orderbook::new();
    let mut sell = plain(2, OrderSide::Sell, 100, 5);
    assert!(book.process_order(&mut sell).is_empty());
    let mut buy = plain(3, OrderSide::Buy, 100, 8);
    let fills = book.process_order(&mut buy);
    assert_eq!(fills, vec![fill(3, 2, 5, 100)]);
    let content = book.get_orders();
    assert!(content.sell_orders.is_empty());
    assert_eq!(content.buy_orders, vec![stamped(plain(3, OrderSide::Buy, 100, 3), 2)]);
    assert!(!book.contains_order(2));
    assert!(book.contains_order(3));
    assert_eq!(buy.visible_quantity, 3);
}

#[test]
fn iceberg_is_replenished_and_loses_its_place() {
    let mut book = Orderbook::new();
    let mut berg = iceberg(4, OrderSide::Sell, 100, 5, 15, 5);
    assert!(book.process_order(&mut berg).is_empty());
    let mut between = plain(7, OrderSide::Sell, 100, 3);
    assert!(book.process_order(&mut between).is_empty());
    assert_eq!(ids(&book.get_orders().sell_orders), vec![4, 7]);

    let mut buy = plain(5, OrderSide::Buy, 100, 5);
    let fills = book.process_order(&mut buy);
    assert_eq!(fills, vec![fill(5, 4, 5, 100)]);
    assert_eq!(buy.visible_quantity, 0);
    assert!(!book.contains_order(5));

    let content = book.get_orders();
    assert!(content.buy_orders.is_empty());
    assert_eq!(
        content.sell_orders,
        vec![
            stamped(plain(7, OrderSide::Sell, 100, 3), 2),
            stamped(iceberg(4, OrderSide::Sell, 100, 5, 10, 5), 3),
        ]
    );
    assert_eq!(book.time_counter(), 3);

    let mut next = plain(8, OrderSide::Buy, 100, 4);
    let fills = book.process_order(&mut next);
    assert_eq!(fills, vec![fill(8, 7, 3, 100), fill(8, 4, 1, 100)]);
}

#[test]
fn buy_below_best_sell_rests_unmatched() {
    let mut book = Orderbook::new();
    let mut sell = plain(2, OrderSide::Sell, 100, 5);
    assert!(book.process_order(&mut sell).is_empty());
    let mut buy = plain(6, OrderSide::Buy, 50, 4);
    let fills = book.process_order(&mut buy);
    assert!(fills.is_empty());
    let content = book.get_orders();
    assert_eq!(content.buy_orders, vec![stamped(plain(6, OrderSide::Buy, 50, 4), 2)]);
    assert_eq!(content.sell_orders, vec![stamped(plain(2, OrderSide::Sell, 100, 5), 1)]);
}

#[test]
fn zero_quantity_order_is_a_no_op() {
    let mut book = Orderbook::new();
    let mut sell = plain(2, OrderSide::Sell, 100, 5);
    book.process_order(&mut sell);
    let mut nothing = plain(9, OrderSide::Buy, 100, 0);
    let fills = book.process_order(&mut nothing);
    assert!(fills.is_empty());
    assert_eq!(nothing, plain(9, OrderSide::Buy, 100, 0));
    assert!(!book.contains_order(9));
    assert_eq!(book.time_counter(), 1);
    assert_eq!(book.get_orders().sell_orders, vec![stamped(plain(2, OrderSide::Sell, 100, 5), 1)]);
    assert!(book.get_orders().buy_orders.is_empty());
}

#[test]
fn order_with_only_reserve_is_a_no_op() {
    let mut book = Orderbook::new();
    let mut sell = plain(2, OrderSide::Sell, 100, 5);
    book.process_order(&mut sell);
    let mut hidden_only = iceberg(9, OrderSide::Buy, 100, 0, 10, 5);
    let fills = book.process_order(&mut hidden_only);
    assert!(fills.is_empty());
    assert_eq!(hidden_only, iceberg(9, OrderSide::Buy, 100, 0, 10, 5));
    assert!(!book.contains_order(9));
}

#[test]
fn sell_crosses_resting_buy_at_the_resting_price() {
    let mut book = Orderbook::new();
    let mut buy = plain(1, OrderSide::Buy, 105, 10);
    book.process_order(&mut buy);
    let mut sell = plain(2, OrderSide::Sell, 100, 4);
    let fills = book.process_order(&mut sell);
    assert_eq!(fills, vec![fill(2, 1, 4, 105)]);
    assert_eq!(book.get_orders().buy_orders, vec![stamped(plain(1, OrderSide::Buy, 105, 6), 1)]);
    assert!(book.get_orders().sell_orders.is_empty());
    assert_eq!(book.time_counter(), 1);
}

#[test]
fn sell_above_best_buy_rests_unmatched() {
    let mut book = Orderbook::new();
    let mut buy = plain(1, OrderSide::Buy, 100, 10);
    book.process_order(&mut buy);
    let mut sell = plain(2, OrderSide::Sell, 101, 4);
    assert!(book.process_order(&mut sell).is_empty());
    assert_eq!(ids(&book.get_orders().sell_orders), vec![2]);
    assert_eq!(ids(&book.get_orders().buy_orders), vec![1]);
}

#[test]
fn price_priority_for_sells_regardless_of_insertion_order() {
    let mut book = Orderbook::new();
    for (id, price) in [(1u64, 102u64), (2, 100), (3, 101)] {
        let mut sell = plain(id, OrderSide::Sell, price, 5);
        book.process_order(&mut sell);
    }
    assert_eq!(ids(&book.get_orders().sell_orders), vec![2, 3, 1]);
    let mut buy = plain(9, OrderSide::Buy, 102, 12);
    let fills = book.process_order(&mut buy);
    assert_eq!(fills, vec![fill(9, 2, 5, 100), fill(9, 3, 5, 101), fill(9, 1, 2, 102)]);
    assert_eq!(book.get_orders().sell_orders, vec![stamped(plain(1, OrderSide::Sell, 102, 3), 1)]);
    assert!(book.get_orders().buy_orders.is_empty());
}

#[test]
fn price_priority_for_buys_regardless_of_insertion_order() {
    let mut book = Orderbook::new();
    for (id, price) in [(1u64, 98u64), (2, 100), (3, 99)] {
        let mut buy = plain(id, OrderSide::Buy, price, 5);
        book.process_order(&mut buy);
    }
    assert_eq!(ids(&book.get_orders().buy_orders), vec![2, 3, 1]);
    let mut sell = plain(9, OrderSide::Sell, 99, 20);
    let fills = book.process_order(&mut sell);
    assert_eq!(fills, vec![fill(9, 2, 5, 100), fill(9, 3, 5, 99)]);
    assert_eq!(ids(&book.get_orders().buy_orders), vec![1]);
    assert_eq!(book.get_orders().sell_orders, vec![stamped(plain(9, OrderSide::Sell, 99, 10), 4)]);
}

#[test]
fn time_priority_at_equal_price() {
    let mut book = Orderbook::new();
    for id in [5u64, 3, 4] {
        let mut sell = plain(id, OrderSide::Sell, 100, 2);
        book.process_order(&mut sell);
    }
    assert_eq!(ids(&book.get_orders().sell_orders), vec![5, 3, 4]);
    let mut buy = plain(9, OrderSide::Buy, 100, 5);
    let fills = book.process_order(&mut buy);
    assert_eq!(fills, vec![fill(9, 5, 2, 100), fill(9, 3, 2, 100), fill(9, 4, 1, 100)]);
    assert_eq!(book.get_orders().sell_orders, vec![stamped(plain(4, OrderSide::Sell, 100, 1), 3)]);
}

#[test]
fn partially_filled_resting_order_keeps_its_place() {
    let mut book = Orderbook::new();
    let mut first = plain(1, OrderSide::Sell, 100, 10);
    book.process_order(&mut first);
    let mut second = plain(2, OrderSide::Sell, 100, 10);
    book.process_order(&mut second);
    let mut buy = plain(3, OrderSide::Buy, 100, 4);
    assert_eq!(book.process_order(&mut buy), vec![fill(3, 1, 4, 100)]);
    assert_eq!(
        book.get_orders().sell_orders,
        vec![
            stamped(plain(1, OrderSide::Sell, 100, 6), 1),
            stamped(plain(2, OrderSide::Sell, 100, 10), 2),
        ]
    );
    assert_eq!(book.time_counter(), 2);
}

#[test]
fn replenished_iceberg_goes_behind_its_price_level_only() {
    let mut book = Orderbook::new();
    let mut berg = iceberg(1, OrderSide::Sell, 100, 2, 4, 2);
    book.process_order(&mut berg);
    let mut same = plain(2, OrderSide::Sell, 100, 1);
    book.process_order(&mut same);
    let mut worse = plain(3, OrderSide::Sell, 101, 1);
    book.process_order(&mut worse);
    let mut buy = plain(9, OrderSide::Buy, 100, 2);
    assert_eq!(book.process_order(&mut buy), vec![fill(9, 1, 2, 100)]);
    assert_eq!(
        book.get_orders().sell_orders,
        vec![
            stamped(plain(2, OrderSide::Sell, 100, 1), 2),
            stamped(iceberg(1, OrderSide::Sell, 100, 2, 2, 2), 4),
            stamped(plain(3, OrderSide::Sell, 101, 1), 3),
        ]
    );
}

#[test]
fn one_order_sweeps_an_iceberg_slice_by_slice() {
    let mut book = Orderbook::new();
    let mut berg = iceberg(4, OrderSide::Sell, 100, 5, 7, 5);
    book.process_order(&mut berg);
    let mut buy = plain(5, OrderSide::Buy, 100, 20);
    let fills = book.process_order(&mut buy);
    assert_eq!(fills, vec![fill(5, 4, 5, 100), fill(5, 4, 5, 100), fill(5, 4, 2, 100)]);
    assert!(!book.contains_order(4));
    assert!(book.get_orders().sell_orders.is_empty());
    assert_eq!(book.get_orders().buy_orders, vec![stamped(plain(5, OrderSide::Buy, 100, 8), 4)]);
    assert_eq!(book.time_counter(), 4);
}

#[test]
fn incoming_iceberg_is_replenished_while_it_matches() {
    let mut book = Orderbook::new();
    for id in [1u64, 2, 3] {
        let mut sell = plain(id, OrderSide::Sell, 100, 4);
        book.process_order(&mut sell);
    }
    let mut buy = iceberg(9, OrderSide::Buy, 100, 3, 5, 3);
    let fills = book.process_order(&mut buy);
    assert_eq!(
        fills,
        vec![fill(9, 1, 3, 100), fill(9, 1, 1, 100), fill(9, 2, 2, 100), fill(9, 2, 2, 100)]
    );
    assert_eq!(buy, iceberg(9, OrderSide::Buy, 100, 0, 0, 3));
    assert!(!book.contains_order(9));
    assert_eq!(
        book.get_orders().sell_orders,
        vec![stamped(plain(3, OrderSide::Sell, 100, 4), 3)]
    );
}

#[test]
fn incoming_iceberg_rests_with_its_reserve() {
    let mut book = Orderbook::new();
    let mut sell = plain(1, OrderSide::Sell, 100, 3);
    book.process_order(&mut sell);
    let mut buy = iceberg(9, OrderSide::Buy, 100, 3, 5, 3);
    let fills = book.process_order(&mut buy);
    assert_eq!(fills, vec![fill(9, 1, 3, 100)]);
    assert_eq!(buy, stamped(iceberg(9, OrderSide::Buy, 100, 3, 2, 3), 2));
    assert_eq!(book.get_orders().buy_orders, vec![buy]);
}

#[test]
fn incoming_iceberg_partly_filled_is_not_topped_up() {
    let mut book = Orderbook::new();
    let mut sell = plain(1, OrderSide::Sell, 100, 3);
    book.process_order(&mut sell);
    let mut buy = iceberg(9, OrderSide::Buy, 100, 5, 10, 5);
    let fills = book.process_order(&mut buy);
    assert_eq!(fills, vec![fill(9, 1, 3, 100)]);
    assert_eq!(book.get_orders().buy_orders, vec![stamped(iceberg(9, OrderSide::Buy, 100, 2, 10, 5), 2)]);
}

#[test]
fn quantity_is_conserved() {
    let mut book = Orderbook::new();
    let mut a = iceberg(1, OrderSide::Sell, 100, 4, 9, 4);
    book.process_order(&mut a);
    let mut b = plain(2, OrderSide::Sell, 101, 6);
    book.process_order(&mut b);
    let mut c = plain(3, OrderSide::Buy, 90, 7);
    book.process_order(&mut c);
    let before = book.get_orders();
    let sells_before = total(&before.sell_orders);
    let buys_before = total(&before.buy_orders);
    assert_eq!(sells_before, 19);
    assert_eq!(buys_before, 7);

    let mut buy = iceberg(9, OrderSide::Buy, 101, 10, 12, 10);
    let brought = buy.visible_quantity + buy.hidden_reserve;
    let fills = book.process_order(&mut buy);
    let after = book.get_orders();
    let left = buy.visible_quantity + buy.hidden_reserve;
    assert_eq!(traded(&fills), 19);
    assert_eq!(brought, traded(&fills) + left);
    assert_eq!(total(&after.sell_orders), sells_before - traded(&fills));
    assert_eq!(total(&after.buy_orders), buys_before + left);
    assert_eq!(left, 3);
}

#[test]
fn fully_filled_order_is_not_in_the_book() {
    let mut book = Orderbook::new();
    let mut sell = plain(1, OrderSide::Sell, 100, 10);
    book.process_order(&mut sell);
    let mut buy = plain(2, OrderSide::Buy, 100, 10);
    let fills = book.process_order(&mut buy);
    assert_eq!(fills, vec![fill(2, 1, 10, 100)]);
    assert_eq!(buy.visible_quantity, 0);
    assert_eq!(buy.hidden_reserve, 0);
    assert!(!book.contains_order(2));
    assert!(!book.contains_order(1));
    assert!(book.get_orders().buy_orders.is_empty());
    assert!(book.get_orders().sell_orders.is_empty());
}

#[test]
fn remainder_rests_as_it_was_left() {
    let mut book = Orderbook::new();
    let mut sell = plain(1, OrderSide::Sell, 100, 4);
    book.process_order(&mut sell);
    let mut buy = plain(2, OrderSide::Buy, 100, 10);
    book.process_order(&mut buy);
    assert_eq!(buy.visible_quantity, 6);
    assert!(book.contains_order(2));
    assert_eq!(book.get_orders().buy_orders, vec![buy]);
}

#[test]
fn snapshot_shows_visible_quantity_within_peak() {
    let mut book = Orderbook::new();
    let mut berg = iceberg(1, OrderSide::Sell, 100, 5, 100, 5);
    book.process_order(&mut berg);
    let mut buy = plain(2, OrderSide::Buy, 100, 13);
    let fills = book.process_order(&mut buy);
    assert_eq!(fills, vec![fill(2, 1, 5, 100), fill(2, 1, 5, 100), fill(2, 1, 3, 100)]);
    for f in &fills {
        assert!(f.quantity <= 5);
    }
    let content = book.get_orders();
    assert_eq!(content.sell_orders, vec![stamped(iceberg(1, OrderSide::Sell, 100, 2, 90, 5), 3)]);
    for o in &content.sell_orders {
        assert!(o.visible_quantity <= o.peak_size);
    }
}

#[test]
fn snapshot_is_idempotent() {
    let mut book = Orderbook::new();
    for (id, side, price) in [
        (1u64, OrderSide::Buy, 99u64),
        (2, OrderSide::Sell, 101),
        (3, OrderSide::Buy, 100),
        (4, OrderSide::Sell, 102),
    ] {
        let mut o = plain(id, side, price, 5);
        book.process_order(&mut o);
    }
    let first = book.get_orders();
    let second = book.get_orders();
    assert_eq!(first.buy_orders, second.buy_orders);
    assert_eq!(first.sell_orders, second.sell_orders);
    assert_eq!(ids(&first.buy_orders), vec![3, 1]);
    assert_eq!(ids(&first.sell_orders), vec![2, 4]);
}

#[test]
fn timestamps_follow_insertions_and_replenishments() {
    let mut book = Orderbook::new();
    let mut berg = iceberg(1, OrderSide::Buy, 100, 1, 2, 1);
    book.process_order(&mut berg);
    assert_eq!(berg.order_key.timestamp, 1);
    let mut sell = plain(2, OrderSide::Sell, 100, 2);
    let fills = book.process_order(&mut sell);
    assert_eq!(fills, vec![fill(2, 1, 1, 100), fill(2, 1, 1, 100)]);
    assert_eq!(book.time_counter(), 3);
    assert_eq!(book.get_orders().buy_orders, vec![stamped(iceberg(1, OrderSide::Buy, 100, 1, 0, 1), 3)]);
    let mut rest = plain(3, OrderSide::Sell, 200, 1);
    book.process_order(&mut rest);
    assert_eq!(rest.order_key.timestamp, 4);
}

#[test]
fn caller_supplied_timestamp_is_replaced() {
    let mut book = Orderbook::new();
    let mut buy = stamped(plain(1, OrderSide::Buy, 100, 10), 77);
    book.process_order(&mut buy);
    assert_eq!(buy.order_key.timestamp, 1);
    assert_eq!(book.get_orders().buy_orders[0].order_key.timestamp, 1);
}

use order_matching::matching_engine::order::{FillEvent, Order, OrderKey, OrderSide};

fn key(id: u64, side: OrderSide, price: u64, timestamp: u64) -> OrderKey {
    OrderKey { id, side, price, timestamp }
}

fn order(id: u64, side: OrderSide, price: u64, visible: u64, hidden: u64, peak: u64) -> Order {
    Order {
        order_key: key(id, side, price, 0),
        visible_quantity: visible,
        hidden_reserve: hidden,
        peak_size: peak,
    }
}

#[test]
fn opposite_side_is_the_other_side() {
    assert_eq!(OrderSide::Buy.opposite(), OrderSide::Sell);
    assert_eq!(OrderSide::Sell.opposite(), OrderSide::Buy);
}

#[test]
fn buy_key_with_higher_price_outranks() {
    let high = key(1, OrderSide::Buy, 101, 9);
    let low = key(2, OrderSide::Buy, 100, 1);
    assert!(high.outranks(low));
    assert!(!low.outranks(high));
}

#[test]
fn sell_key_with_lower_price_outranks() {
    let low = key(1, OrderSide::Sell, 99, 9);
    let high = key(2, OrderSide::Sell, 100, 1);
    assert!(low.outranks(high));
    assert!(!high.outranks(low));
}

#[test]
fn equal_price_is_decided_by_timestamp() {
    let early = key(7, OrderSide::Sell, 100, 3);
    let late = key(2, OrderSide::Sell, 100, 4);
    assert!(early.outranks(late));
    assert!(!late.outranks(early));
    let early_buy = key(7, OrderSide::Buy, 100, 3);
    let late_buy = key(2, OrderSide::Buy, 100, 4);
    assert!(early_buy.outranks(late_buy));
    assert!(!late_buy.outranks(early_buy));
}

#[test]
fn no_key_outranks_itself() {
    let k = key(1, OrderSide::Buy, 100, 1);
    assert!(!k.outranks(k));
}

#[test]
fn identifier_plays_no_part_in_ranking() {
    let a = key(1, OrderSide::Buy, 100, 5);
    let b = key(999, OrderSide::Buy, 100, 5);
    assert!(!a.outranks(b));
    assert!(!b.outranks(a));
}

#[test]
fn outranks_is_transitive_on_a_sample() {
    let a = key(1, OrderSide::Sell, 98, 7);
    let b = key(2, OrderSide::Sell, 99, 2);
    let c = key(3, OrderSide::Sell, 99, 5);
    assert!(a.outranks(b));
    assert!(b.outranks(c));
    assert!(a.outranks(c));
}

#[test]
fn buy_crosses_at_or_above_the_best_sell() {
    let buy = order(1, OrderSide::Buy, 100, 1, 0, 0);
    assert!(buy.crosses(key(2, OrderSide::Sell, 100, 1)));
    assert!(buy.crosses(key(2, OrderSide::Sell, 99, 1)));
    assert!(!buy.crosses(key(2, OrderSide::Sell, 101, 1)));
}

#[test]
fn sell_crosses_at_or_below_the_best_buy() {
    let sell = order(1, OrderSide::Sell, 100, 1, 0, 0);
    assert!(sell.crosses(key(2, OrderSide::Buy, 100, 1)));
    assert!(sell.crosses(key(2, OrderSide::Buy, 101, 1)));
    assert!(!sell.crosses(key(2, OrderSide::Buy, 99, 1)));
}

#[test]
fn empty_needs_both_quantities_to_be_zero() {
    assert!(order(1, OrderSide::Buy, 100, 0, 0, 5).empty());
    assert!(!order(1, OrderSide::Buy, 100, 1, 0, 5).empty());
    assert!(!order(1, OrderSide::Buy, 100, 0, 1, 5).empty());
}

#[test]
fn iceberg_means_reserve_left() {
    assert!(order(1, OrderSide::Buy, 100, 5, 15, 5).is_iceberg());
    assert!(!order(1, OrderSide::Buy, 100, 5, 0, 5).is_iceberg());
    assert!(order(1, OrderSide::Buy, 100, 0, 1, 5).is_iceberg());
}

#[test]
fn fill_event_takes_the_smaller_quantity_at_the_resting_price() {
    let incoming = order(3, OrderSide::Buy, 105, 8, 0, 0);
    let resting = order(2, OrderSide::Sell, 100, 5, 0, 0);
    assert_eq!(
        incoming.get_fill_event(&resting),
        FillEvent { order_id: 3, matched_order_id: 2, quantity: 5, price: 100 }
    );
    let small = order(4, OrderSide::Buy, 105, 2, 0, 0);
    assert_eq!(
        small.get_fill_event(&resting),
        FillEvent { order_id: 4, matched_order_id: 2, quantity: 2, price: 100 }
    );
}

#[test]
fn fill_event_ignores_the_reserve() {
    let incoming = order(3, OrderSide::Buy, 100, 50, 0, 0);
    let resting = order(2, OrderSide::Sell, 100, 5, 15, 5);
    assert_eq!(incoming.get_fill_event(&resting).quantity, 5);
}

#[test]
fn reload_moves_a_peak_from_the_reserve() {
    let mut o = order(4, OrderSide::Sell, 100, 0, 15, 5);
    o.reload_iceberg_order();
    assert_eq!(o, order(4, OrderSide::Sell, 100, 5, 10, 5));
}

#[test]
fn reload_moves_the_whole_reserve_when_it_is_below_the_peak() {
    let mut o = order(4, OrderSide::Sell, 100, 0, 3, 5);
    o.reload_iceberg_order();
    assert_eq!(o, order(4, OrderSide::Sell, 100, 3, 0, 5));
}

#[test]
fn reload_leaves_an_order_with_visible_quantity_alone() {
    let mut o = order(4, OrderSide::Sell, 100, 2, 15, 5);
    o.reload_iceberg_order();
    assert_eq!(o, order(4, OrderSide::Sell, 100, 2, 15, 5));
}

#[test]
fn reload_of_a_plain_order_changes_nothing() {
    let mut o = order(4, OrderSide::Sell, 100, 0, 0, 0);
    o.reload_iceberg_order();
    assert_eq!(o, order(4, OrderSide::Sell, 100, 0, 0, 0));
}

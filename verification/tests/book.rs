use apex_venue::book::LimitBook;
use apex_venue::{OpPayload, OrderType, Side};

fn order(trader_id: u64, side: Side, price: u64, qty: u64, order_type: OrderType) -> OpPayload {
    OpPayload { trader_id, side, price, qty, order_type }
}

fn gtc(trader_id: u64, side: Side, price: u64, qty: u64) -> OpPayload {
    order(trader_id, side, price, qty, OrderType::LimitGTC)
}

#[test]
fn resting_sell_fills_a_crossing_buy() {
    let mut b = LimitBook::new();
    assert!(b.process_limit(gtc(1, Side::Sell, 100, 10)).is_empty());
    assert_eq!(b.process_limit(gtc(2, Side::Buy, 100, 4)), vec![(1, 2, 4)]);
    assert_eq!(b.process_limit(gtc(3, Side::Buy, 100, 10)), vec![(1, 3, 6)]);
    // The rest of trader 3's buy now rests and is taken by a seller.
    assert_eq!(b.process_limit(gtc(4, Side::Sell, 90, 5)), vec![(3, 4, 4)]);
}

#[test]
fn best_price_first_then_earlier_arrival() {
    let mut b = LimitBook::new();
    assert!(b.process_limit(gtc(1, Side::Sell, 101, 5)).is_empty());
    assert!(b.process_limit(gtc(3, Side::Sell, 100, 5)).is_empty());
    assert!(b.process_limit(gtc(4, Side::Sell, 100, 5)).is_empty());
    assert_eq!(b.process_limit(gtc(2, Side::Buy, 101, 8)), vec![(3, 2, 5), (4, 2, 3)]);
    assert_eq!(b.process_limit(gtc(5, Side::Buy, 101, 10)), vec![(4, 5, 2), (1, 5, 5)]);
}

#[test]
fn sell_takes_highest_bid_first() {
    let mut b = LimitBook::new();
    assert!(b.process_limit(gtc(1, Side::Buy, 98, 3)).is_empty());
    assert!(b.process_limit(gtc(2, Side::Buy, 99, 3)).is_empty());
    assert_eq!(b.process_limit(gtc(3, Side::Sell, 98, 5)), vec![(2, 3, 3), (1, 3, 2)]);
}

#[test]
fn no_trade_through_the_limit() {
    let mut b = LimitBook::new();
    assert!(b.process_limit(gtc(1, Side::Sell, 105, 5)).is_empty());
    assert!(b.process_limit(gtc(2, Side::Buy, 104, 5)).is_empty());
    // Both orders rest: a seller at 104 meets the bid, not the ask.
    assert_eq!(b.process_limit(gtc(3, Side::Sell, 104, 1)), vec![(2, 3, 1)]);
}

#[test]
fn ioc_remainder_is_dropped() {
    let mut b = LimitBook::new();
    assert!(b.process_limit(gtc(1, Side::Sell, 100, 2)).is_empty());
    assert_eq!(b.process_limit(order(2, Side::Buy, 100, 5, OrderType::LimitIOC)), vec![(1, 2, 2)]);
    // Nothing of the buy rested.
    assert!(b.process_limit(gtc(3, Side::Sell, 100, 5)).is_empty());
    assert!(b.process_limit(order(4, Side::Buy, 99, 5, OrderType::LimitIOC)).is_empty());
    assert_eq!(b.process_limit(gtc(5, Side::Buy, 100, 1)), vec![(3, 5, 1)]);
}

#[test]
fn market_order_takes_any_price_and_never_rests() {
    let mut b = LimitBook::new();
    assert!(b.process_limit(gtc(1, Side::Sell, 100, 2)).is_empty());
    assert!(b.process_limit(gtc(2, Side::Sell, 500, 2)).is_empty());
    assert_eq!(b.process_limit(order(3, Side::Buy, 0, 10, OrderType::Market)), vec![(1, 3, 2), (2, 3, 2)]);
    assert!(b.process_limit(gtc(4, Side::Sell, 1, 1)).is_empty());
}

#[test]
fn default_book_is_empty() {
    let mut b = LimitBook::default();
    assert!(b.process_limit(order(1, Side::Buy, 1, 1, OrderType::LimitIOC)).is_empty());
    assert!(b.process_limit(order(2, Side::Sell, 1, 1, OrderType::Market)).is_empty());
}

#[test]
fn same_side_orders_never_match() {
    let mut b = LimitBook::new();
    assert!(b.process_limit(gtc(1, Side::Buy, 100, 2)).is_empty());
    assert!(b.process_limit(gtc(2, Side::Buy, 101, 2)).is_empty());
    let cloned = b.clone();
    let mut c = cloned;
    assert_eq!(c.process_limit(gtc(3, Side::Sell, 100, 4)), vec![(2, 3, 2), (1, 3, 2)]);
}

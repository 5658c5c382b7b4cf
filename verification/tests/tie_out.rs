use apex_venue::tie_out::{build_live_ledger, build_shadow_ledger, count_discrepancies};
use apex_venue::{OpPayload, OrderType, OrderedOp, Side};

fn op(trader: u64, side: Side, price: u64, qty: u64) -> OrderedOp {
    OrderedOp {
        causal_id: [0; 32],
        price,
        payload: OpPayload { trader_id: trader, side, price, qty, order_type: OrderType::LimitGTC },
        content_hash: [0; 32],
    }
}

#[test]
fn shadow_ledger_moves_asset_and_cash() {
    let ops = vec![op(1, Side::Buy, 50_000_000, 1000), op(2, Side::Sell, 50_000_000, 1000), op(1, Side::Sell, 30_000, 3)];
    let shadow = build_shadow_ledger(&ops).expect("fits");
    assert_eq!(shadow.get(1, "BTC"), Some(997));
    assert_eq!(shadow.get(1, "USD"), Some(-5_000_000 + 9));
    assert_eq!(shadow.get(2, "BTC"), Some(-1000));
    assert_eq!(shadow.get(2, "USD"), Some(5_000_000));
    assert_eq!(shadow.len(), 4);
}

#[test]
fn shadow_notional_rounds_toward_zero() {
    let shadow = build_shadow_ledger(&[op(1, Side::Buy, 9_999, 1)]).unwrap();
    assert_eq!(shadow.get(1, "USD"), Some(0));
    let huge = build_shadow_ledger(&[op(1, Side::Buy, u64::MAX, 2)]).unwrap();
    // u64::MAX reads as -1 in i64: the product is -2, which rounds to 0.
    assert_eq!(huge.get(1, "USD"), Some(0));
}

#[test]
fn shadow_overflow_is_refused() {
    assert!(build_shadow_ledger(&[op(1, Side::Buy, 1 << 40, 1 << 40)]).is_none());
    assert!(build_shadow_ledger(&[op(1, Side::Buy, 1, i64::MAX as u64), op(1, Side::Buy, 1, 1)]).is_none());
}

#[test]
fn live_ledger_later_rows_win_and_null_is_zero() {
    let rows = vec![(1i64, "USD".to_string(), Some(5i64)), (1, "USD".to_string(), Some(7)), (2, "BTC".to_string(), None)];
    let live = build_live_ledger(&rows);
    assert_eq!(live.get(1, "USD"), Some(7));
    assert_eq!(live.get(2, "BTC"), Some(0));
}

#[test]
fn discrepancies_counted_per_shadow_balance() {
    let shadow = build_shadow_ledger(&[op(1, Side::Buy, 20_000, 10)]).unwrap();
    let matching = build_live_ledger(&vec![(1, "BTC".to_string(), Some(10)), (1, "USD".to_string(), Some(-20))]);
    assert_eq!(count_discrepancies(&shadow, &matching), 0);
    let off = build_live_ledger(&vec![(1, "BTC".to_string(), Some(10))]);
    assert_eq!(count_discrepancies(&shadow, &off), 1);
    let empty = build_live_ledger(&Vec::new());
    assert_eq!(count_discrepancies(&shadow, &empty), 2);
}

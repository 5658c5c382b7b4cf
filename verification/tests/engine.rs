use sha2::Digest;
use apex_venue::engine::Engine;
use apex_venue::market_data::{DiffEvent, MarketDataHub};
use apex_venue::sequencer::Sequencer;
use apex_venue::wal::WalManager;
use apex_venue::{encode_op, ExecutionReport, InvariantViolation, OpPayload, OrderType, OrderedOp, Side, State};

fn engine() -> Engine {
    Engine::new(State::new(), WalManager::new("test.wal".to_string()), MarketDataHub::new(10_000))
}

fn ordered(seq: &mut Sequencer, trader: u64, side: Side, price: u64) -> OrderedOp {
    let payload = OpPayload { trader_id: trader, side, price, qty: 10, order_type: OrderType::LimitGTC };
    seq.assign(payload)
}

fn batch() -> Vec<OrderedOp> {
    let mut seq = Sequencer::new([0; 32]);
    vec![
        ordered(&mut seq, 1, Side::Buy, 300),
        ordered(&mut seq, 2, Side::Sell, 500),
        ordered(&mut seq, 3, Side::Buy, 200),
        ordered(&mut seq, 1, Side::Sell, 700),
    ]
}

#[test]
fn execute_batch_opens_cash_balances_and_reports_nothing() {
    let mut e = engine();
    let reports = e.execute_batch(batch()).expect("balanced");
    assert!(reports.is_empty());
    let balances = &e.state().balances;
    assert_eq!(balances.len(), 3);
    for t in 1..=3 {
        assert_eq!(balances.get(t, "USD"), Some(0));
    }
    assert_eq!(e.match_counter, 0);
}

#[test]
fn execute_batch_commits_in_canonical_order() {
    let mut e = engine();
    let ops = batch();
    e.execute_batch(ops.clone()).unwrap();
    let mut sorted = ops.clone();
    Sequencer::sort_canonical(&mut sorted);
    let staged = e.take_staged_batches();
    let payloads: Vec<Vec<u8>> = sorted.iter().map(encode_op).collect();
    assert_eq!(staged, vec![WalManager::encode_batch(&payloads)]);
    assert_eq!(e.wal_latest_root(), &[0u8; 32]);
    e.mark_log_durable();
    let ids: Vec<u8> = sorted.iter().flat_map(|o| o.causal_id.to_vec()).collect();
    assert_eq!(e.wal_latest_root(), &sha256(&ids));
    assert_eq!(e.wal().latest_root(), e.wal_latest_root());
}

fn arb_ops(n: u64) -> Vec<OpPayload> {
    (0..n)
        .map(|i| OpPayload {
            trader_id: 1 + (i * 7_901) % 10_000,
            side: if (i * 31) % 2 == 0 { Side::Buy } else { Side::Sell },
            price: 1 + (i * 48_271_123) % 100_000_000,
            qty: 1 + (i * 9_973) % 100_000,
            order_type: OrderType::LimitGTC,
        })
        .collect()
}

#[test]
fn invariant_1_idempotency() {
    for (k, op) in arb_ops(12).into_iter().enumerate() {
        let mut state = engine();
        let mut seq = Sequencer::new([0; 32]);
        let ordered_op = seq.assign(op);
        let _reports = state.execute_batch(vec![ordered_op]).expect("Initial execution failed");
        let canonical_root = state.merkle_root();
        for _ in 0..(1 + k % 19) {
            let _ = state.execute_batch(vec![ordered_op]).expect("Duplicate execution failed");
        }
        assert_eq!(canonical_root, state.merkle_root(), "Idempotency breach: root changed after duplicate execution");
    }
}

#[test]
fn invariant_2_determinism() {
    for n in [1u64, 9, 10, 23, 49] {
        let mut seq = Sequencer::new([0; 32]);
        let ordered_ops: Vec<OrderedOp> = arb_ops(n).into_iter().map(|o| seq.assign(o)).collect();
        let mut state_a = engine();
        let mut batch_a = ordered_ops.clone();
        Sequencer::sort_canonical(&mut batch_a);
        let reports_a = state_a.execute_batch(batch_a).expect("Baseline execution failed");
        let root_a = state_a.merkle_root();
        let mut state_b = engine();
        let mut chaotic = ordered_ops.clone();
        chaotic.reverse();
        let reports_b = state_b.execute_batch(chaotic).expect("Reversed execution failed");
        assert_eq!(root_a, state_b.merkle_root(), "Determinism breach: arrival order altered final state");
        let trades = |r: &Vec<ExecutionReport>| -> Vec<(u64, u64, u64, u64, u64)> {
            r.iter().map(|x| (x.match_id, x.maker_id, x.taker_id, x.price, x.qty)).collect()
        };
        assert_eq!(trades(&reports_a), trades(&reports_b));
    }
}

#[test]
fn resting_orders_in_any_chunks_leave_the_same_root() {
    for n in [1u64, 9, 10, 23, 49] {
        let mut seq = Sequencer::new([0; 32]);
        let ordered_ops: Vec<OrderedOp> = arb_ops(n)
            .into_iter()
            .map(|mut o| {
                o.side = Side::Buy;
                seq.assign(o)
            })
            .collect();
        let mut state_a = engine();
        state_a.execute_batch(ordered_ops.clone()).expect("Baseline execution failed");
        let mut state_b = engine();
        let mut chaotic = ordered_ops.clone();
        chaotic.reverse();
        for chunk in chaotic.chunks(10) {
            assert!(state_b.execute_batch(chunk.to_vec()).expect("Chunk execution failed").is_empty());
        }
        assert_eq!(state_a.merkle_root(), state_b.merkle_root());
    }
}

#[test]
fn invariant_3_conservation() {
    let mut e = engine();
    let mut seq = Sequencer::new([0; 32]);
    let payloads: Vec<OpPayload> = (0..30u64)
        .map(|i| OpPayload {
            trader_id: 1 + (i * 337) % 10_000,
            side: if i % 3 == 0 { Side::Buy } else { Side::Sell },
            price: 1 + (i * 7_919_993) % 100_000_000,
            qty: 1 + (i * 613) % 100_000,
            order_type: OrderType::LimitGTC,
        })
        .collect();
    for op in &payloads {
        e.state_mut().balances.insert(op.trader_id, "USD".into(), 10_000_000_000i64);
        e.state_mut().balances.insert(op.trader_id, "BTC".into(), 100_000i64);
    }
    let ordered_ops: Vec<OrderedOp> = payloads.iter().map(|o| seq.assign(*o)).collect();
    let _ = e.execute_batch(ordered_ops).expect("Execution failed");
    let net_usd: i64 = e.state().balances.entries().iter().filter(|b| b.asset == "USD").map(|b| b.amount).sum();
    let net_btc: i64 = e.state().balances.entries().iter().filter(|b| b.asset == "BTC").map(|b| b.amount).sum();
    assert!(net_usd > 0 && net_btc > 0, "Conservation breach: negative balances");
}

#[test]
fn execute_batch_keeps_each_asset_total() {
    let mut e = engine();
    e.state_mut().balances.insert(1, "BTC".to_string(), 5);
    e.state_mut().balances.insert(2, "USD".to_string(), 40);
    let before = e.state().balances.clone();
    assert!(e.execute_batch(batch()).is_ok());
    assert_eq!(e.state().balances.asset_total("BTC"), 5);
    assert_eq!(e.state().balances.asset_total("USD"), 40);
    assert!(e.state().balances.same_asset_totals(&before));
    assert_eq!(e.take_staged_batches().len(), 1);
}

#[test]
fn empty_batch() {
    let mut e = engine();
    assert!(e.execute_batch(Vec::new()).unwrap().is_empty());
    e.mark_log_durable();
    assert_eq!(e.wal_latest_root(), &sha256(&[]));
}

#[test]
fn fill_is_reported_and_settled_between_buyer_and_seller() {
    let mut e = engine();
    let mut seq = Sequencer::new([0; 32]);
    let sell = seq.assign(OpPayload { trader_id: 1, side: Side::Sell, price: 50_000_000, qty: 1000, order_type: OrderType::LimitGTC });
    assert!(e.execute_batch(vec![sell]).unwrap().is_empty());
    let buy = seq.assign(OpPayload { trader_id: 2, side: Side::Buy, price: 50_000_000, qty: 400, order_type: OrderType::LimitGTC });
    let reports = e.execute_batch(vec![buy]).unwrap();
    assert_eq!(reports.len(), 1);
    let r = reports[0];
    assert_eq!((r.match_id, r.maker_id, r.taker_id, r.price, r.qty), (0, 1, 2, 50_000_000, 400));
    assert_eq!(e.match_counter, 1);
    assert_eq!(e.state().balances.get(1, "USD"), Some(2_000_000));
    assert_eq!(e.state().balances.get(2, "USD"), Some(-2_000_000));
    assert_eq!(e.state().balances.asset_total("USD"), 0);
    // A selling taker is paid by the resting buyer, at the taker's price.
    let buy2 = seq.assign(OpPayload { trader_id: 3, side: Side::Buy, price: 45_000_000, qty: 100, order_type: OrderType::LimitGTC });
    let sell2 = seq.assign(OpPayload { trader_id: 4, side: Side::Sell, price: 40_000_000, qty: 100, order_type: OrderType::LimitIOC });
    e.execute_batch(vec![buy2]).unwrap();
    let reports = e.execute_batch(vec![sell2]).unwrap();
    let r = reports[0];
    assert_eq!((r.match_id, r.maker_id, r.taker_id, r.price, r.qty), (1, 3, 4, 40_000_000, 100));
    assert_eq!(e.state().balances.get(3, "USD"), Some(-400_000));
    assert_eq!(e.state().balances.get(4, "USD"), Some(400_000));
    assert_eq!(e.match_counter, 2);
}

#[test]
fn batch_that_would_overflow_a_balance_changes_nothing() {
    let mut e = engine();
    let mut seq = Sequencer::new([0; 32]);
    e.state_mut().balances.insert(1, "USD".to_string(), i64::MAX);
    let sell = seq.assign(OpPayload { trader_id: 1, side: Side::Sell, price: 10_000, qty: 5, order_type: OrderType::LimitGTC });
    e.execute_batch(vec![sell]).unwrap();
    let root = e.merkle_root();
    let buy = seq.assign(OpPayload { trader_id: 2, side: Side::Buy, price: 10_000, qty: 5, order_type: OrderType::LimitGTC });
    let staged_before = e.take_staged_batches().len();
    assert_eq!(staged_before, 1);
    assert!(matches!(e.execute_batch(vec![buy]), Err(InvariantViolation::BalanceConservation)));
    assert_eq!(e.merkle_root(), root);
    assert_eq!(e.match_counter, 0);
    assert!(e.take_staged_batches().is_empty());
    // The sell still rests: a smaller price-time match goes through once cash allows it.
    e.state_mut().balances.insert(1, "USD".to_string(), 0);
    let reports = e.execute_batch(vec![buy]).unwrap();
    assert_eq!(reports.len(), 1);
    assert_eq!(e.state().balances.get(1, "USD"), Some(5));
}

#[test]
fn notional_product_overflow_is_refused() {
    let mut e = engine();
    let mut seq = Sequencer::new([0; 32]);
    let sell = seq.assign(OpPayload { trader_id: 1, side: Side::Sell, price: 1, qty: u64::MAX / 2, order_type: OrderType::LimitGTC });
    e.execute_batch(vec![sell]).unwrap();
    let buy = seq.assign(OpPayload { trader_id: 2, side: Side::Buy, price: 4, qty: u64::MAX / 2, order_type: OrderType::LimitGTC });
    assert!(matches!(e.execute_batch(vec![buy]), Err(InvariantViolation::BalanceConservation)));
    assert_eq!(e.match_counter, 0);
}

#[test]
fn detached_hub_counts_every_diff_as_dropped() {
    let mut hub = MarketDataHub::new(4);
    let ev = DiffEvent { price: 1, qty_delta: -1, side: 0, seq: 0 };
    hub.push_diff(ev);
    hub.push_diff(ev);
    assert_eq!(hub.drop_count, 2);
    let mut zero = MarketDataHub::new(0);
    zero.push_diff(ev);
    assert_eq!(zero.drop_count, 1);
}

#[test]
fn default_state_is_empty() {
    let s = State::default();
    assert_eq!(s.balances.len(), 0);
    assert!(s.match_log.is_empty());
}

fn sha256(bytes: &[u8]) -> [u8; 32] {
    sha2::Sha256::digest(bytes).into()
}

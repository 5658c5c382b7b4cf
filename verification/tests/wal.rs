use sha2::Digest;
use apex_venue::wal::{WalManager, WAL_BARRIER};
use apex_venue::{encode_op, OpPayload, OrderType, OrderedOp, Side, State};

fn op(id: u8, price: u64) -> OrderedOp {
    OrderedOp {
        causal_id: [id; 32],
        price,
        payload: OpPayload { trader_id: id as u64, side: Side::Buy, price, qty: 1, order_type: OrderType::LimitIOC },
        content_hash: [0; 32],
    }
}

#[test]
fn single_op_batch_layout() {
    let log = WalManager::encode_batch(&[b"123456789".to_vec()]);
    assert_eq!(log.len(), 4 + 9 + 4 + 4);
    assert_eq!(&log[0..4], &9u32.to_le_bytes());
    assert_eq!(&log[4..13], b"123456789");
    // CRC-32 (IEEE) check value of "123456789".
    assert_eq!(&log[13..17], &0xCBF4_3926u32.to_le_bytes());
    assert_eq!(&log[17..21], &WAL_BARRIER.to_le_bytes());
}

#[test]
fn empty_batch_is_just_the_barrier() {
    let log = WalManager::encode_batch(&[]);
    assert_eq!(log, 0xDEAD_BEEFu32.to_le_bytes().to_vec());
    assert!(WalManager::recover(&log).is_empty());
    let mut more = log.clone();
    more.extend(WalManager::encode_batch(&[b"after".to_vec()]));
    assert_eq!(WalManager::recover(&more), vec![b"after".to_vec()]);
}

#[test]
fn log_of_single_op_batches_round_trips() {
    let payloads = vec![b"first".to_vec(), Vec::new(), b"third payload".to_vec()];
    let mut log = Vec::new();
    for p in &payloads {
        log.extend(WalManager::encode_batch(&[p.clone()]));
    }
    assert_eq!(WalManager::recover(&log), payloads);
}

#[test]
fn log_of_multi_op_batches_round_trips() {
    let payloads = vec![b"alpha".to_vec(), b"beta".to_vec(), b"gamma".to_vec()];
    let mut log = WalManager::encode_batch(&payloads);
    log.extend(WalManager::encode_batch(&[]));
    log.extend(WalManager::encode_batch(&[b"delta".to_vec(), b"epsilon".to_vec()]));
    assert_eq!(
        WalManager::recover(&log),
        vec![b"alpha".to_vec(), b"beta".to_vec(), b"gamma".to_vec(), b"delta".to_vec(), b"epsilon".to_vec()]
    );
}

#[test]
fn corrupted_record_ends_recovery() {
    let payloads = vec![b"one".to_vec(), b"two".to_vec(), b"three".to_vec()];
    let mut log = WalManager::encode_batch(&payloads);
    log.extend(WalManager::encode_batch(&[b"four".to_vec()]));
    // The payload of the second record starts at 4 + 3 + 4 + 4.
    log[15] ^= 0x40;
    assert_eq!(WalManager::recover(&log), vec![b"one".to_vec()]);
}

#[test]
fn torn_tail_loses_only_the_torn_frame() {
    let mut log = WalManager::encode_batch(&[b"kept".to_vec()]);
    let second = WalManager::encode_batch(&[b"torn".to_vec()]);
    log.extend_from_slice(&second[..second.len() - 6]);
    assert_eq!(WalManager::recover(&log), vec![b"kept".to_vec()]);
}

#[test]
fn missing_barrier_keeps_the_frame() {
    let full = WalManager::encode_batch(&[b"payload".to_vec()]);
    let log = &full[..full.len() - 2];
    assert_eq!(WalManager::recover(log), vec![b"payload".to_vec()]);
}

#[test]
fn corrupted_payload_is_dropped() {
    let mut log = WalManager::encode_batch(&[b"payload".to_vec()]);
    log[5] ^= 0x01;
    assert!(WalManager::recover(&log).is_empty());
}

#[test]
fn short_log_recovers_nothing() {
    assert!(WalManager::recover(&[]).is_empty());
    assert!(WalManager::recover(&[1, 0, 0]).is_empty());
}

#[test]
fn commit_batch_roots_on_causal_ids_and_stages() {
    let mut wal = WalManager::new("engine.wal".to_string());
    assert_eq!(wal.latest_root(), &[0u8; 32]);
    assert_eq!(wal.path(), "engine.wal");
    let ops = vec![op(1, 10), op(2, 20)];
    let root = wal.commit_batch(&ops, &State::new());
    assert_eq!(wal.latest_root(), &[0u8; 32]);
    wal.mark_durable();
    let mut ids = Vec::new();
    ids.extend_from_slice(&ops[0].causal_id);
    ids.extend_from_slice(&ops[1].causal_id);
    assert_eq!(root, sha256(&ids));
    assert_eq!(wal.latest_root(), &root);
    let staged = wal.take_staged();
    let payloads: Vec<Vec<u8>> = ops.iter().map(encode_op).collect();
    assert_eq!(staged, vec![WalManager::encode_batch(&payloads)]);
    assert_eq!(WalManager::recover(&staged[0]), payloads);
    assert!(wal.take_staged().is_empty());
    wal.set_latest_root([7; 32]);
    assert_eq!(wal.latest_root(), &[7; 32]);
}

fn sha256(bytes: &[u8]) -> [u8; 32] {
    sha2::Sha256::digest(bytes).into()
}

#[test]
fn order_encoding_layout() {
    let o = OrderedOp {
        causal_id: [3; 32],
        price: 0x0a0b,
        payload: OpPayload { trader_id: 0x0102, side: Side::Sell, price: 77, qty: 99, order_type: OrderType::LimitGTC },
        content_hash: [9; 32],
    };
    let bytes = encode_op(&o);
    assert_eq!(bytes.len(), 104);
    assert_eq!(&bytes[0..32], &o.causal_id);
    assert_eq!(&bytes[32..40], &o.price.to_le_bytes());
    assert_eq!(&bytes[40..48], &o.payload.trader_id.to_le_bytes());
    let side: u32 = if o.payload.side == Side::Buy { 0 } else { 1 };
    assert_eq!(&bytes[48..52], &side.to_le_bytes());
    assert_eq!(&bytes[52..60], &o.payload.price.to_le_bytes());
    assert_eq!(&bytes[60..68], &o.payload.qty.to_le_bytes());
    assert_eq!(&bytes[68..72], &1u32.to_le_bytes());
    assert_eq!(&bytes[72..104], &o.content_hash);
}

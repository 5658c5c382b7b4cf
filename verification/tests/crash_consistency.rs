use apex_venue::sequencer::Sequencer;
use apex_venue::wal::WalManager;
use apex_venue::{encode_op, OpPayload, OrderType, OrderedOp, Side};

#[test]
fn test_wal_truncation() {
    let ops: Vec<OrderedOp> = (0..10u64)
        .map(|i| {
            let payload = OpPayload {
                trader_id: i,
                side: if i % 2 == 0 { Side::Buy } else { Side::Sell },
                price: 50_000_000,
                qty: 1000,
                order_type: OrderType::LimitGTC,
            };
            Sequencer::new([0; 32]).assign(payload)
        })
        .collect();
    let mut wal = WalManager::new("test.wal".to_string());
    wal.commit_batch(&ops, &apex_venue::State::new());
    let log: Vec<u8> = wal.take_staged().concat();
    let payloads: Vec<Vec<u8>> = ops.iter().map(encode_op).collect();
    let len = log.len();
    for cut in [4, len - 4, len - 8].iter().filter(|&&c| c < len) {
        let recovered = WalManager::recover(&log[..*cut]);
        assert!(recovered.len() <= ops.len(), "Hallucinated ops");
        assert_eq!(recovered[..], payloads[..recovered.len()]);
    }
}

#[test]
fn truncated_batch_recovers_only_committed_payloads() {
    let payloads: Vec<Vec<u8>> = (0..5u8).map(|i| vec![i; 10 + i as usize]).collect();
    let log = WalManager::encode_batch(&payloads);
    for cut in 0..=log.len() {
        let recovered = WalManager::recover(&log[..cut]);
        assert!(recovered.len() <= payloads.len());
        assert_eq!(recovered[..], payloads[..recovered.len()]);
    }
    assert_eq!(WalManager::recover(&log), payloads);
}

#[test]
fn torn_log_of_several_batches_recovers_a_prefix() {
    let batches: Vec<Vec<Vec<u8>>> = vec![
        vec![b"a1".to_vec(), b"a2".to_vec()],
        vec![],
        vec![b"b1".to_vec()],
        vec![b"c1".to_vec(), b"c2".to_vec(), b"c3".to_vec()],
    ];
    let all: Vec<Vec<u8>> = batches.iter().flatten().cloned().collect();
    let mut log = Vec::new();
    for b in &batches {
        log.extend(WalManager::encode_batch(b));
    }
    assert_eq!(WalManager::recover(&log), all);
    for cut in 0..=log.len() {
        let recovered = WalManager::recover(&log[..cut]);
        assert_eq!(recovered[..], all[..recovered.len()]);
    }
}

use apex_venue::sequencer::{Sequencer, SequencerMode};
use apex_venue::{compute_content_hash, encode_payload, OpPayload, OrderType, OrderedOp, Side};
use sha2::Digest;

fn payload(trader: u64, price: u64) -> OpPayload {
    OpPayload { trader_id: trader, side: Side::Sell, price, qty: 5, order_type: OrderType::Market }
}

fn op(id: u8, price: u64) -> OrderedOp {
    OrderedOp { causal_id: [id; 32], price, payload: payload(id as u64, price), content_hash: [0; 32] }
}

fn sha256(bytes: &[u8]) -> [u8; 32] {
    sha2::Sha256::digest(bytes).into()
}

#[test]
fn payload_encoding_is_bincode_layout() {
    let p = OpPayload { trader_id: 7, side: Side::Sell, price: 300, qty: 9, order_type: OrderType::LimitGTC };
    let mut expected = Vec::new();
    expected.extend_from_slice(&7u64.to_le_bytes());
    expected.extend_from_slice(&1u32.to_le_bytes());
    expected.extend_from_slice(&300u64.to_le_bytes());
    expected.extend_from_slice(&9u64.to_le_bytes());
    expected.extend_from_slice(&1u32.to_le_bytes());
    assert_eq!(encode_payload(&p), expected);
    assert_eq!(compute_content_hash(&p), sha256(&expected));
}

#[test]
fn content_hash_known_value() {
    // SHA-256 of "abc" checks the hash itself.
    assert_eq!(
        sha256(b"abc"),
        [
            0xba, 0x78, 0x16, 0xbf, 0x8f, 0x01, 0xcf, 0xea, 0x41, 0x41, 0x40, 0xde, 0x5d, 0xae, 0x22, 0x23,
            0xb0, 0x03, 0x61, 0xa3, 0x96, 0x17, 0x7a, 0x9c, 0xb4, 0x10, 0xff, 0x61, 0xf2, 0x00, 0x15, 0xad
        ]
    );
    let p = payload(1, 100);
    assert_ne!(compute_content_hash(&p), compute_content_hash(&payload(2, 100)));
}

#[test]
fn assign_derives_ids_from_root_counter_and_content() {
    let mut seq = Sequencer::new([3; 32]);
    let a = seq.assign(payload(1, 100));
    assert_eq!(seq.counter(), 1);
    assert_eq!(a.content_hash, compute_content_hash(&payload(1, 100)));
    let mut preimage = vec![3u8; 32];
    preimage.extend_from_slice(&0u64.to_le_bytes());
    preimage.extend_from_slice(&a.content_hash);
    assert_eq!(a.causal_id, sha256(&preimage));
    assert_eq!(a.price, 100);
    assert_eq!(a.payload, payload(1, 100));
    let b = seq.assign(payload(1, 100));
    assert_eq!(seq.counter(), 2);
    assert_ne!(a.causal_id, b.causal_id);
    assert_eq!(a.content_hash, b.content_hash);
}

#[test]
fn same_window_same_ids() {
    let mut s1 = Sequencer::new([0; 32]);
    let mut s2 = Sequencer::new([0; 32]).with_mode(SequencerMode::ExternalVRF([9; 32]));
    assert_eq!(s1.assign(payload(4, 1)), s2.assign(payload(4, 1)));
}

#[test]
fn commit_window_resets_position() {
    let mut seq = Sequencer::new([0; 32]);
    seq.assign(payload(1, 1));
    seq.set_counter(41);
    assert_eq!(seq.counter(), 41);
    let before = seq.assign(payload(1, 1));
    seq.commit_window([1; 32]);
    assert_eq!(seq.counter(), 0);
    let after = seq.assign(payload(1, 1));
    assert_ne!(before.causal_id, after.causal_id);
}

#[test]
fn sort_by_price_then_causal_id() {
    let mut ops = vec![op(5, 200), op(9, 100), op(1, 200), op(2, 100)];
    Sequencer::sort_canonical(&mut ops);
    let order: Vec<(u64, u8)> = ops.iter().map(|o| (o.price, o.causal_id[0])).collect();
    assert_eq!(order, vec![(100, 2), (100, 9), (200, 1), (200, 5)]);
}

#[test]
fn sort_is_stable_for_equal_keys() {
    let mut a = op(1, 10);
    a.payload.qty = 1;
    let mut b = op(1, 10);
    b.payload.qty = 2;
    let mut ops = vec![b, op(0, 10), a];
    Sequencer::sort_canonical(&mut ops);
    assert_eq!(ops, vec![op(0, 10), b, a]);
}

#[test]
fn sort_ignores_arrival_order() {
    let ops = vec![op(3, 7), op(1, 7), op(2, 1), op(8, 4)];
    let mut forward = ops.clone();
    let mut backward: Vec<OrderedOp> = ops.iter().rev().cloned().collect();
    Sequencer::sort_canonical(&mut forward);
    Sequencer::sort_canonical(&mut backward);
    assert_eq!(forward, backward);
}

#[test]
fn counter_after_n_assigns_is_n() {
    let mut seq = Sequencer::new([5; 32]);
    for n in 1..=7u64 {
        let _ = seq.assign(OpPayload { trader_id: n, side: Side::Sell, price: n, qty: n, order_type: OrderType::Market });
        assert_eq!(seq.counter(), n);
        assert_eq!(seq.counter(), n);
    }
}

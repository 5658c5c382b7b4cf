use sha2::Digest;
use apex_venue::ledger::Ledger;
use apex_venue::{validate_invariants, State};

#[test]
fn insert_get_and_replace() {
    let mut l = Ledger::new();
    assert_eq!(l.insert(7, "USD".to_string(), 100), None);
    assert_eq!(l.insert(7, "BTC".to_string(), -3), None);
    assert_eq!(l.get(7, "USD"), Some(100));
    assert_eq!(l.get(7, "EUR"), None);
    assert_eq!(l.insert(7, "USD".to_string(), 40), Some(100));
    assert_eq!(l.get(7, "USD"), Some(40));
    assert_eq!(l.len(), 2);
}

#[test]
fn entries_are_in_key_order() {
    let mut l = Ledger::new();
    l.insert(9, "USD".to_string(), 1);
    l.insert(2, "USD".to_string(), 2);
    l.insert(2, "BTC".to_string(), 3);
    l.insert(2, "BT".to_string(), 4);
    let keys: Vec<(u64, String)> = l.entries().iter().map(|b| (b.trader, b.asset.clone())).collect();
    assert_eq!(
        keys,
        vec![(2, "BT".to_string()), (2, "BTC".to_string()), (2, "USD".to_string()), (9, "USD".to_string())]
    );
}

#[test]
fn credit_starts_from_zero() {
    let mut l = Ledger::new();
    l.credit(1, "USD", -25);
    l.credit(1, "USD", 10);
    assert_eq!(l.get(1, "USD"), Some(-15));
    assert_eq!(l.total(), -15);
}

#[test]
fn total_is_exact() {
    let mut l = Ledger::new();
    l.insert(1, "A".to_string(), i64::MAX);
    l.insert(2, "A".to_string(), i64::MAX);
    assert_eq!(l.total(), 2 * i64::MAX as i128);
}

#[test]
fn root_depends_only_on_balances() {
    let mut a = Ledger::new();
    a.insert(1, "USD".to_string(), 5);
    a.insert(2, "BTC".to_string(), -5);
    let mut b = Ledger::new();
    b.insert(2, "BTC".to_string(), 1);
    b.insert(1, "USD".to_string(), 5);
    b.insert(2, "BTC".to_string(), -5);
    assert_eq!(a.root(), b.root());
    b.insert(3, "USD".to_string(), 0);
    assert_ne!(a.root(), b.root());
}

#[test]
fn root_preimage_layout() {
    let mut l = Ledger::new();
    l.insert(1, "AB".to_string(), -1);
    let mut expected = Vec::new();
    expected.extend_from_slice(&1u64.to_le_bytes());
    expected.extend_from_slice(b"AB");
    expected.extend_from_slice(&(-1i64).to_le_bytes());
    assert_eq!(l.root_preimage(), expected);
    assert_eq!(l.root(), sha256(&expected));
}

#[test]
fn empty_root_is_hash_of_nothing() {
    let state = State::new();
    let root = state.merkle_root();
    assert_eq!(
        root[..4],
        [0xe3, 0xb0, 0xc4, 0x42],
    );
}

#[test]
fn clone_keeps_balances() {
    let mut l = Ledger::new();
    l.insert(4, "USD".to_string(), 12);
    let c = l.clone();
    assert_eq!(c.get(4, "USD"), Some(12));
    assert_eq!(c.root(), l.root());
}

#[test]
fn conservation_check() {
    let mut state = State::new();
    state.balances.insert(1, "USD".to_string(), 10_000_000_000);
    state.balances.insert(1, "BTC".to_string(), 100_000);
    let baseline = state.balances.clone();
    // A funded state that nothing moved is conserved.
    assert!(validate_invariants(&state, &baseline).is_ok());
    // Moving cash between traders keeps every asset's total.
    state.balances.insert(1, "USD".to_string(), 9_999_999_000);
    state.balances.insert(2, "USD".to_string(), 1_000);
    assert!(validate_invariants(&state, &baseline).is_ok());
    // Cash appearing from nowhere does not.
    state.balances.insert(3, "USD".to_string(), 1);
    assert!(matches!(
        validate_invariants(&state, &baseline),
        Err(apex_venue::InvariantViolation::BalanceConservation)
    ));
    // Nor does moving value from one asset to another.
    let mut swapped = baseline.clone();
    swapped.insert(1, "USD".to_string(), 10_000_000_001);
    swapped.insert(1, "BTC".to_string(), 99_999);
    let mut s2 = State::new();
    s2.balances = swapped;
    assert!(validate_invariants(&s2, &baseline).is_err());
}

#[test]
fn asset_totals() {
    let mut l = Ledger::new();
    l.insert(1, "USD".to_string(), 5);
    l.insert(2, "USD".to_string(), -7);
    l.insert(2, "BTC".to_string(), 4);
    assert_eq!(l.asset_total("USD"), -2);
    assert_eq!(l.asset_total("BTC"), 4);
    assert_eq!(l.asset_total("EUR"), 0);
    let mut m = Ledger::new();
    m.insert(9, "BTC".to_string(), 4);
    m.insert(9, "USD".to_string(), -2);
    assert!(l.same_asset_totals(&m));
    m.insert(9, "EUR".to_string(), 1);
    assert!(!l.same_asset_totals(&m));
}

fn sha256(bytes: &[u8]) -> [u8; 32] {
    sha2::Sha256::digest(bytes).into()
}

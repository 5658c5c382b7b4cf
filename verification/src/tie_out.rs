//! End-of-day tie-out: the ledger implied by the log (the shadow ledger)
//! against the ledger the database reports (the live ledger).
use vstd::prelude::*;
use crate::engine::{notional, usd};
use crate::ledger::{BalanceKey, BalanceView, Ledger, amount_or_zero, sorted_balances};
use crate::{OpPayload, OrderedOp, Side};

verus! {

/// The traded asset.
pub open spec fn btc() -> Seq<char> {
    seq!['B', 'T', 'C']
}

/// What an order moves: its quantity of the asset in one direction and
/// its notional of cash in the other.
pub open spec fn asset_change(p: OpPayload) -> int {
    if p.side == Side::Buy { (p.qty as i64) as int } else { -((p.qty as i64) as int) }
}

pub open spec fn cash_change(p: OpPayload) -> int {
    if p.side == Side::Buy { -notional(p.price, p.qty) } else { notional(p.price, p.qty) }
}

/// Replaying `p` onto `m` stays within `i64` at every step.
pub open spec fn replay_fits(m: Map<BalanceKey, i64>, p: OpPayload) -> bool {
    &&& i64::MIN <= (p.price as i64) * (p.qty as i64) <= i64::MAX
    &&& i64::MIN <= amount_or_zero(m, (p.trader_id, btc())) + asset_change(p) <= i64::MAX
    &&& i64::MIN <= amount_or_zero(m, (p.trader_id, usd())) + cash_change(p) <= i64::MAX
}

/// `m` after replaying `p`: the asset leg, then the cash leg.
pub open spec fn replay(m: Map<BalanceKey, i64>, p: OpPayload) -> Map<BalanceKey, i64> {
    let m1 = m.insert((p.trader_id, btc()), (amount_or_zero(m, (p.trader_id, btc())) + asset_change(p)) as i64);
    m1.insert((p.trader_id, usd()), (amount_or_zero(m1, (p.trader_id, usd())) + cash_change(p)) as i64)
}

/// The shadow ledger of `ops`, replayed in log order from nothing; `None`
/// where some step leaves `i64`.
pub open spec fn shadow_of(ops: Seq<OrderedOp>) -> Option<Map<BalanceKey, i64>>
    decreases ops.len(),
{
    if ops.len() == 0 {
        Some(Map::empty())
    } else {
        match shadow_of(ops.drop_last()) {
            Some(m) => if replay_fits(m, ops.last().payload) {
                Some(replay(m, ops.last().payload))
            } else {
                None
            },
            None => None,
        }
    }
}

/// The live ledger given by database rows (trader id, asset, net balance),
/// in row order: later rows win, a missing balance counts as 0.
pub open spec fn live_of(rows: Seq<(i64, Seq<char>, Option<i64>)>) -> Map<BalanceKey, i64>
    decreases rows.len(),
{
    if rows.len() == 0 {
        Map::empty()
    } else {
        let r = rows.last();
        live_of(rows.drop_last()).insert(
            (r.0 as u64, r.1),
            match r.2 {
                Some(v) => v,
                None => 0,
            },
        )
    }
}

/// How many shadow balances differ from the live amount (0 where the live
/// ledger has none).
pub open spec fn discrepancies(shadow: Seq<BalanceView>, live: Map<BalanceKey, i64>) -> nat
    decreases shadow.len(),
{
    if shadow.len() == 0 {
        0
    } else {
        discrepancies(shadow.drop_last(), live) + if shadow.last().2 as int != amount_or_zero(
            live,
            (shadow.last().0, shadow.last().1),
        ) {
            1nat
        } else {
            0nat
        }
    }
}

/// The cash that the orders of trader `t` in `ops` move in all.
pub open spec fn cash_sum(ops: Seq<OrderedOp>, t: u64) -> int
    decreases ops.len(),
{
    if ops.len() == 0 {
        0
    } else {
        cash_sum(ops.drop_last(), t) + if ops.last().payload.trader_id == t {
            cash_change(ops.last().payload)
        } else {
            0
        }
    }
}

/// The asset that the orders of trader `t` in `ops` move in all.
pub open spec fn asset_sum(ops: Seq<OrderedOp>, t: u64) -> int
    decreases ops.len(),
{
    if ops.len() == 0 {
        0
    } else {
        asset_sum(ops.drop_last(), t) + if ops.last().payload.trader_id == t {
            asset_change(ops.last().payload)
        } else {
            0
        }
    }
}

/// Replaying accumulates: in the shadow ledger, every trader holds, in cash
/// and in the asset, the sum of what each of its orders moves, buys and
/// sells alike; nobody else holds anything.
pub proof fn lemma_shadow_sums_orders(ops: Seq<OrderedOp>, t: u64)
    requires
        shadow_of(ops) is Some,
    ensures
        amount_or_zero(shadow_of(ops).unwrap(), (t, usd())) == cash_sum(ops, t),
        amount_or_zero(shadow_of(ops).unwrap(), (t, btc())) == asset_sum(ops, t),
        forall|k: BalanceKey| #[trigger] shadow_of(ops).unwrap().contains_key(k) ==> k.1 == usd() || k.1 == btc(),
    decreases ops.len(),
{
    if ops.len() > 0 {
        let rest = ops.drop_last();
        lemma_shadow_sums_orders(rest, t);
        let m0 = shadow_of(rest).unwrap();
        let p = ops.last().payload;
        assert(btc()[0] != usd()[0]);
        assert(btc() != usd());
        let m1 = m0.insert((p.trader_id, btc()), (amount_or_zero(m0, (p.trader_id, btc())) + asset_change(p)) as i64);
        assert(amount_or_zero(m1, (p.trader_id, usd())) == amount_or_zero(m0, (p.trader_id, usd())));
        assert forall|k: BalanceKey| #[trigger] shadow_of(ops).unwrap().contains_key(k) implies k.1 == usd() || k.1
            == btc() by {
            if k != (p.trader_id, btc()) && k != (p.trader_id, usd()) {
                assert(m0.contains_key(k));
            }
        }
    }
}

/// Whether a shadow balance differs from what the live ledger holds under
/// its key (0 where it holds nothing).
pub open spec fn is_mismatch(live: Map<BalanceKey, i64>, b: BalanceView) -> bool {
    b.2 as int != amount_or_zero(live, (b.0, b.1))
}

/// The count and the list of discrepancies are the shadow balances that
/// differ from the live ledger under their key, wherever the live ledger
/// holds that key or not: there are none exactly when every shadow balance
/// matches.
pub proof fn lemma_discrepancies_are_mismatches(shadow: Seq<BalanceView>, live: Map<BalanceKey, i64>)
    ensures
        discrepancies(shadow, live) == shadow.filter(|b: BalanceView| is_mismatch(live, b)).len(),
        mismatches(shadow, live) == shadow.filter(|b: BalanceView| is_mismatch(live, b)).map_values(
            |b: BalanceView| (b.0, b.1, b.2, amount_or_zero(live, (b.0, b.1))),
        ),
        discrepancies(shadow, live) == 0 <==> forall|i: int| 0 <= i < shadow.len() ==> !is_mismatch(live, #[trigger] shadow[i]),
    decreases shadow.len(),
{
    reveal(Seq::filter);
    let pred = |b: BalanceView| is_mismatch(live, b);
    let f = |b: BalanceView| (b.0, b.1, b.2, amount_or_zero(live, (b.0, b.1)));
    if shadow.len() == 0 {
        assert(shadow.filter(pred) =~= Seq::<BalanceView>::empty());
        assert(mismatches(shadow, live) =~= shadow.filter(pred).map_values(f));
    } else {
        let rest = shadow.drop_last();
        lemma_discrepancies_are_mismatches(rest, live);
        assert(shadow.filter(pred) == if pred(shadow.last()) {
            rest.filter(pred).push(shadow.last())
        } else {
            rest.filter(pred)
        });
        if pred(shadow.last()) {
            assert(shadow.filter(pred).map_values(f) =~= rest.filter(pred).map_values(f).push(f(shadow.last())));
        }
        if discrepancies(shadow, live) == 0 {
            assert forall|i: int| 0 <= i < shadow.len() implies !is_mismatch(live, #[trigger] shadow[i]) by {
                if i < rest.len() {
                    assert(rest[i] == shadow[i]);
                }
            }
        }
        if forall|i: int| 0 <= i < shadow.len() ==> !is_mismatch(live, #[trigger] shadow[i]) {
            assert(!is_mismatch(live, shadow[shadow.len() - 1]));
            assert forall|i: int| 0 <= i < rest.len() implies !is_mismatch(live, #[trigger] rest[i]) by {
                assert(rest[i] == shadow[i]);
            }
        }
    }
}

/// Replays the log's operations into the shadow ledger. Returns `None`
/// where an amount would leave `i64`.
pub fn build_shadow_ledger(ops: &[OrderedOp]) -> (r: Option<Ledger>)
    ensures
        r is Some <==> shadow_of(ops@) is Some,
        r matches Some(l) ==> l.spec_map() == shadow_of(ops@).unwrap(),
{
    let asset = "BTC";
    let cash = "USD";
    proof {
        reveal_strlit("BTC");
        reveal_strlit("USD");
        assert(asset@ =~= btc());
        assert(cash@ =~= usd());
    }
    let mut ledger = Ledger::new();
    let n = ops.len();
    let mut i: usize = 0;
    assert(ops@.take(0) =~= Seq::<OrderedOp>::empty());
    while i < n
        invariant
            n == ops@.len(),
            i <= n,
            asset@ == btc(),
            cash@ == usd(),
            shadow_of(ops@.take(i as int)) == Some(ledger.spec_map()),
        decreases n - i,
    {
        let p = ops[i].payload;
        proof {
            assert(ops@.take(i + 1).drop_last() =~= ops@.take(i as int));
            assert(ops@.take(i + 1).last() == ops@[i as int]);
        }
        let a = (p.price as i64) as i128;
        let b = (p.qty as i64) as i128;
        proof {
            lemma_product_bound(a as int, b as int);
        }
        let product = a * b;
        if product < i64::MIN as i128 || product > i64::MAX as i128 {
            proof {
                lemma_shadow_none_stays(ops@, i as int + 1);
            }
            return None;
        }
        let value = (product as i64) / 10_000;
        let qty = p.qty as i64;
        let held_asset: i128 = match ledger.get(p.trader_id, asset) {
            Some(v) => v as i128,
            None => 0,
        };
        let held_cash: i128 = match ledger.get(p.trader_id, cash) {
            Some(v) => v as i128,
            None => 0,
        };
        let is_buy = p.side == Side::Buy;
        let new_asset: i128 = if is_buy { held_asset + qty as i128 } else { held_asset - qty as i128 };
        let new_cash: i128 = if is_buy { held_cash - value as i128 } else { held_cash + value as i128 };
        if new_asset < i64::MIN as i128 || new_asset > i64::MAX as i128 || new_cash < i64::MIN as i128
            || new_cash > i64::MAX as i128 {
            proof {
                lemma_shadow_none_stays(ops@, i as int + 1);
            }
            return None;
        }
        proof {
            assert(btc()[0] != usd()[0]);
        }
        let _ = ledger.insert(p.trader_id, asset.to_owned(), new_asset as i64);
        let _ = ledger.insert(p.trader_id, cash.to_owned(), new_cash as i64);
        i = i + 1;
    }
    assert(ops@.take(n as int) =~= ops@);
    Some(ledger)
}

proof fn lemma_product_bound(a: int, b: int)
    requires
        -0x8000_0000_0000_0000 <= a < 0x8000_0000_0000_0000,
        -0x8000_0000_0000_0000 <= b < 0x8000_0000_0000_0000,
    ensures
        -0x4000_0000_0000_0000_0000_0000_0000_0000 <= a * b <= 0x4000_0000_0000_0000_0000_0000_0000_0000,
{
    let m: int = 0x8000_0000_0000_0000;
    let abs_a = if a < 0 { -a } else { a };
    let abs_b = if b < 0 { -b } else { b };
    assert(abs_a * abs_b <= m * m) by (nonlinear_arith)
        requires
            0 <= abs_a <= m,
            0 <= abs_b <= m,
    ;
    assert(a * b == abs_a * abs_b || a * b == -(abs_a * abs_b)) by (nonlinear_arith)
        requires
            abs_a == a || abs_a == -a,
            abs_b == b || abs_b == -b,
    ;
    assert(m * m == 0x4000_0000_0000_0000_0000_0000_0000_0000);
}

proof fn lemma_shadow_none_stays(ops: Seq<OrderedOp>, k: int)
    requires
        0 <= k <= ops.len(),
        shadow_of(ops.take(k)) is None,
    ensures
        shadow_of(ops) is None,
    decreases ops.len() - k,
{
    if k < ops.len() {
        assert(ops.take(k + 1).drop_last() =~= ops.take(k));
        lemma_shadow_none_stays(ops, k + 1);
    } else {
        assert(ops.take(k) =~= ops);
    }
}

/// The shadow balances that the live ledger does not match, in ledger
/// order: (trader, asset, amount in the shadow ledger, live amount).
pub open spec fn mismatches(shadow: Seq<BalanceView>, live: Map<BalanceKey, i64>) -> Seq<(u64, Seq<char>, i64, int)>
    decreases shadow.len(),
{
    if shadow.len() == 0 {
        Seq::empty()
    } else {
        let b = shadow.last();
        let actual = amount_or_zero(live, (b.0, b.1));
        let rest = mismatches(shadow.drop_last(), live);
        if b.2 as int != actual {
            rest.push((b.0, b.1, b.2, actual))
        } else {
            rest
        }
    }
}

/// There are as many mismatches as discrepancies.
pub proof fn lemma_mismatches_counted(shadow: Seq<BalanceView>, live: Map<BalanceKey, i64>)
    ensures
        mismatches(shadow, live).len() == discrepancies(shadow, live),
    decreases shadow.len(),
{
    if shadow.len() > 0 {
        lemma_mismatches_counted(shadow.drop_last(), live);
    }
}

/// Lists the shadow balances that the live ledger does not match (see
/// `mismatches`), for reporting.
pub fn list_discrepancies(shadow: &Ledger, live: &Ledger) -> (found: Vec<(u64, String, i64, i64)>)
    ensures
        found@.map_values(|d: (u64, String, i64, i64)| (d.0, d.1@, d.2, d.3 as int)) == mismatches(
            shadow@,
            live.spec_map(),
        ),
{
    let entries = shadow.entries();
    let n = entries.len();
    let mut found: Vec<(u64, String, i64, i64)> = Vec::new();
    let mut i: usize = 0;
    assert(found@.map_values(|d: (u64, String, i64, i64)| (d.0, d.1@, d.2, d.3 as int)) =~= mismatches(
        shadow@.take(0),
        live.spec_map(),
    ));
    while i < n
        invariant
            n == shadow@.len(),
            entries@.map_values(|b: crate::ledger::Balance| b@) == shadow@,
            i <= n,
            found@.map_values(|d: (u64, String, i64, i64)| (d.0, d.1@, d.2, d.3 as int)) == mismatches(
                shadow@.take(i as int),
                live.spec_map(),
            ),
        decreases n - i,
    {
        let b = &entries[i];
        let live_amount = match live.get(b.trader, b.asset.as_str()) {
            Some(v) => v,
            None => 0,
        };
        proof {
            assert(shadow@[i as int] == b@);
            assert(shadow@.take(i + 1).drop_last() =~= shadow@.take(i as int));
            assert(shadow@.take(i + 1).last() == b@);
        }
        if b.amount != live_amount {
            let ghost before = found@;
            found.push((b.trader, b.asset.clone(), b.amount, live_amount));
            assert(found@.map_values(|d: (u64, String, i64, i64)| (d.0, d.1@, d.2, d.3 as int)) =~= before.map_values(
                |d: (u64, String, i64, i64)| (d.0, d.1@, d.2, d.3 as int),
            ).push((b.trader, b.asset@, b.amount, live_amount as int)));
        }
        i = i + 1;
    }
    assert(shadow@.take(n as int) =~= shadow@);
    found
}

/// Builds the live ledger from database rows (see `live_of`).
pub fn build_live_ledger(rows: &Vec<(i64, String, Option<i64>)>) -> (l: Ledger)
    ensures
        l.spec_map() == live_of(rows@.map_values(|r: (i64, String, Option<i64>)| (r.0, r.1@, r.2))),
{
    let ghost views = rows@.map_values(|r: (i64, String, Option<i64>)| (r.0, r.1@, r.2));
    let mut ledger = Ledger::new();
    let n = rows.len();
    let mut i: usize = 0;
    assert(views.take(0) =~= Seq::<(i64, Seq<char>, Option<i64>)>::empty());
    while i < n
        invariant
            n == rows@.len(),
            views == rows@.map_values(|r: (i64, String, Option<i64>)| (r.0, r.1@, r.2)),
            i <= n,
            ledger.spec_map() == live_of(views.take(i as int)),
        decreases n - i,
    {
        let row = &rows[i];
        let amount = match row.2 {
            Some(v) => v,
            None => 0,
        };
        proof {
            assert(views.take(i + 1).drop_last() =~= views.take(i as int));
            assert(views.take(i + 1).last() == views[i as int]);
        }
        let _ = ledger.insert(row.0 as u64, row.1.clone(), amount);
        i = i + 1;
    }
    assert(views.take(n as int) =~= views);
    ledger
}

/// Counts the shadow balances that the live ledger does not match.
pub fn count_discrepancies(shadow: &Ledger, live: &Ledger) -> (count: usize)
    ensures
        count == discrepancies(shadow@, live.spec_map()),
{
    let entries = shadow.entries();
    let n = entries.len();
    let mut count: usize = 0;
    let mut i: usize = 0;
    while i < n
        invariant
            n == shadow@.len(),
            entries@.map_values(|b: crate::ledger::Balance| b@) == shadow@,
            i <= n,
            count == discrepancies(shadow@.take(i as int), live.spec_map()),
            count <= i,
        decreases n - i,
    {
        let b = &entries[i];
        let live_amount = match live.get(b.trader, b.asset.as_str()) {
            Some(v) => v,
            None => 0,
        };
        proof {
            assert(shadow@[i as int] == b@);
            assert(shadow@.take(i + 1).drop_last() =~= shadow@.take(i as int));
            assert(shadow@.take(i + 1).last() == b@);
        }
        if b.amount != live_amount {
            count = count + 1;
        }
        i = i + 1;
    }
    assert(shadow@.take(n as int) =~= shadow@);
    count
}

} // verus!

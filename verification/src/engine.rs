//! The matching engine: executes batches in canonical order, settles
//! balances, publishes diffs and commits each batch to the log.
use vstd::prelude::*;
use crate::book::{Fill, Resting, book_after, fills_of};
use crate::digest::unix_time_nanos;
use crate::ledger::{
    BalanceKey, BalanceView, Ledger, amount_or_zero, asset_total, balances_map, ledger_root, lemma_root_follows_balances,
    sorted_balances, sum_amounts,
};
use crate::market_data::{DiffEvent, MarketDataHub, next_count};
use crate::sequencer::{Sequencer, canonical_order, lemma_canonical_order_deterministic, lemma_canonical_order_permutes, same_key};
use crate::wal::{WalManager, batch_root, ops_log_bytes};
use crate::{
    ExecutionReport, InvariantViolation, OpPayload, OrderedOp, Side, State, validate_invariants,
};

verus! {

/// The asset in which trades are settled.
pub open spec fn usd() -> Seq<char> {
    seq!['U', 'S', 'D']
}

/// Integer division rounding toward zero, as Rust's `/` does.
pub open spec fn trunc_div(a: int, d: int) -> int {
    if a >= 0 { a / d } else { -((-a) / d) }
}

/// The cash value of `qty` at `price`, in settlement units: the product of
/// both (each read as `i64`) divided by 10 000, rounding toward zero.
pub open spec fn notional(price: u64, qty: u64) -> int {
    trunc_div((price as i64) * (qty as i64), 10000)
}

/// The cash a fill of `qty` moves out of the trader's account: the
/// notional for a buy, its negation for a sell.
pub open spec fn cash_out(p: OpPayload, qty: u64) -> int {
    if p.side == Side::Buy { notional(p.price, qty) } else { -notional(p.price, qty) }
}

/// The key under which a trader's cash is held.
pub open spec fn cash_key(trader: u64) -> BalanceKey {
    (trader, usd())
}

/// Balances after settling `qty` filled for the order `p`.
pub open spec fn settle(m: Map<BalanceKey, i64>, p: OpPayload, qty: u64) -> Map<BalanceKey, i64> {
    m.insert(cash_key(p.trader_id), (amount_or_zero(m, cash_key(p.trader_id)) - cash_out(p, qty)) as i64)
}

/// Balances after executing the orders of `s` in order, none of which fills.
pub open spec fn batch_settle(m: Map<BalanceKey, i64>, s: Seq<OrderedOp>) -> Map<BalanceKey, i64>
    decreases s.len(),
{
    if s.len() == 0 {
        m
    } else {
        settle(batch_settle(m, s.drop_last()), s.last().payload, 0)
    }
}


/// An order that does not fill moves no cash.
pub proof fn lemma_no_fill_moves_nothing(p: OpPayload)
    ensures
        cash_out(p, 0) == 0,
{
    assert((p.price as i64) * (0u64 as i64) == 0);
}

/// What executing unfilled orders does to balances: every key already held
/// keeps its amount, the cash key of each order's trader is opened at 0 if
/// it was not held, and nothing else changes.
pub proof fn lemma_batch_settle_shape(m: Map<BalanceKey, i64>, s: Seq<OrderedOp>)
    ensures
        forall|k: BalanceKey| #[trigger] batch_settle(m, s).contains_key(k) <==> (m.contains_key(k)
            || exists|i: int| 0 <= i < s.len() && cash_key(s[i].payload.trader_id) == k),
        forall|k: BalanceKey| #[trigger] m.contains_key(k) ==> batch_settle(m, s)[k] == m[k],
        forall|k: BalanceKey| !m.contains_key(k) && #[trigger] batch_settle(m, s).contains_key(k)
            ==> batch_settle(m, s)[k] == 0,
    decreases s.len(),
{
    if s.len() > 0 {
        let t = s.drop_last();
        lemma_batch_settle_shape(m, t);
        lemma_no_fill_moves_nothing(s.last().payload);
        let mt = batch_settle(m, t);
        let key = cash_key(s.last().payload.trader_id);
        assert forall|k: BalanceKey| #[trigger] batch_settle(m, s).contains_key(k) <==> (m.contains_key(k)
            || exists|i: int| 0 <= i < s.len() && cash_key(s[i].payload.trader_id) == k) by {
            if mt.contains_key(k) && !m.contains_key(k) {
                let i = choose|i: int| 0 <= i < t.len() && cash_key(t[i].payload.trader_id) == k;
                assert(s[i] == t[i]);
            }
            if exists|i: int| 0 <= i < s.len() && cash_key(s[i].payload.trader_id) == k {
                let i = choose|i: int| 0 <= i < s.len() && cash_key(s[i].payload.trader_id) == k;
                if i < t.len() {
                    assert(s[i] == t[i]);
                }
            }
        }
    }
}

/// Replaying a batch of orders that do not fill changes no balance:
/// executing the same orders again leaves the balances where the first
/// execution left them (see `lemma_quiet_batch_settles`).
pub proof fn lemma_execute_idempotent(m: Map<BalanceKey, i64>, s: Seq<OrderedOp>)
    ensures
        batch_settle(batch_settle(m, s), s) == batch_settle(m, s),
{
    let once = batch_settle(m, s);
    lemma_batch_settle_shape(m, s);
    lemma_batch_settle_shape(once, s);
    assert forall|k: BalanceKey| #[trigger] batch_settle(once, s).contains_key(k) <==> once.contains_key(k) by {
        if exists|i: int| 0 <= i < s.len() && cash_key(s[i].payload.trader_id) == k {
            assert(once.contains_key(k));
        }
    }
    assert(batch_settle(once, s) =~= once);
}

/// Executing orders that do not fill in two parts has the same effect on
/// balances as executing them whole.
pub proof fn lemma_execute_in_parts(m: Map<BalanceKey, i64>, a: Seq<OrderedOp>, b: Seq<OrderedOp>)
    ensures
        batch_settle(batch_settle(m, a), b) == batch_settle(m, a + b),
    decreases b.len(),
{
    if b.len() == 0 {
        assert(a + b =~= a);
    } else {
        lemma_execute_in_parts(m, a, b.drop_last());
        assert((a + b).drop_last() =~= a + b.drop_last());
        assert((a + b).last() == b.last());
    }
}

/// Balances after executing orders that do not fill depend only on which
/// orders were executed, not on their order or on repetitions.
pub proof fn lemma_execute_order_independent(m: Map<BalanceKey, i64>, s1: Seq<OrderedOp>, s2: Seq<OrderedOp>)
    requires
        forall|x: OrderedOp| s1.contains(x) <==> s2.contains(x),
    ensures
        batch_settle(m, s1) == batch_settle(m, s2),
{
    lemma_batch_settle_shape(m, s1);
    lemma_batch_settle_shape(m, s2);
    let r1 = batch_settle(m, s1);
    let r2 = batch_settle(m, s2);
    assert forall|k: BalanceKey| #[trigger] r1.contains_key(k) <==> r2.contains_key(k) by {
        if exists|i: int| 0 <= i < s1.len() && cash_key(s1[i].payload.trader_id) == k {
            let i = choose|i: int| 0 <= i < s1.len() && cash_key(s1[i].payload.trader_id) == k;
            assert(s1.contains(s1[i]));
            let j = choose|j: int| 0 <= j < s2.len() && s2[j] == s1[i];
            assert(cash_key(s2[j].payload.trader_id) == k);
        }
        if exists|i: int| 0 <= i < s2.len() && cash_key(s2[i].payload.trader_id) == k {
            let i = choose|i: int| 0 <= i < s2.len() && cash_key(s2[i].payload.trader_id) == k;
            assert(s2.contains(s2[i]));
            let j = choose|j: int| 0 <= j < s1.len() && s1[j] == s2[i];
            assert(cash_key(s1[j].payload.trader_id) == k);
        }
    }
    assert(r1 =~= r2);
}

proof fn lemma_contains_via_multiset(s: Seq<OrderedOp>, t: Seq<OrderedOp>)
    requires
        s.to_multiset() == t.to_multiset(),
    ensures
        forall|x: OrderedOp| s.contains(x) <==> t.contains(x),
{
    broadcast use vstd::seq_lib::group_to_multiset_ensures;
    assert forall|x: OrderedOp| s.contains(x) <==> t.contains(x) by {
        assert(s.contains(x) <==> s.to_multiset().count(x) > 0);
        assert(t.contains(x) <==> t.to_multiset().count(x) > 0);
    }
}

/// Arrival order does not matter: the same orders, none of which fills,
/// arriving in any order, leave the same balances.
pub proof fn lemma_arrival_order_irrelevant(m: Map<BalanceKey, i64>, s1: Seq<OrderedOp>, s2: Seq<OrderedOp>)
    requires
        s1.to_multiset() == s2.to_multiset(),
    ensures
        batch_settle(m, canonical_order(s1)) == batch_settle(m, canonical_order(s2)),
{
    lemma_canonical_order_permutes(s1);
    lemma_canonical_order_permutes(s2);
    lemma_contains_via_multiset(canonical_order(s1), canonical_order(s2));
    lemma_execute_order_independent(m, canonical_order(s1), canonical_order(s2));
}

/// Splitting a batch of orders that do not fill into two batches executed
/// one after the other leaves the same balances as executing it as one batch.
pub proof fn lemma_split_batches_same_balances(m: Map<BalanceKey, i64>, a: Seq<OrderedOp>, b: Seq<OrderedOp>)
    ensures
        batch_settle(batch_settle(m, canonical_order(a)), canonical_order(b)) == batch_settle(
            m,
            canonical_order(a + b),
        ),
{
    let ca = canonical_order(a);
    let cb = canonical_order(b);
    let cab = canonical_order(a + b);
    lemma_execute_in_parts(m, ca, cb);
    lemma_canonical_order_permutes(a);
    lemma_canonical_order_permutes(b);
    lemma_canonical_order_permutes(a + b);
    lemma_contains_via_multiset(ca, a);
    lemma_contains_via_multiset(cb, b);
    lemma_contains_via_multiset(cab, a + b);
    assert forall|x: OrderedOp| (ca + cb).contains(x) <==> cab.contains(x) by {
        if (ca + cb).contains(x) {
            let i = choose|i: int| 0 <= i < (ca + cb).len() && (ca + cb)[i] == x;
            if i < ca.len() {
                assert(ca.contains(x));
                let j = choose|j: int| 0 <= j < a.len() && a[j] == x;
                assert((a + b)[j] == x);
            } else {
                assert(cb[i - ca.len()] == x);
                assert(cb.contains(x));
                let j = choose|j: int| 0 <= j < b.len() && b[j] == x;
                assert((a + b)[a.len() + j] == x);
            }
        }
        if cab.contains(x) {
            let i = choose|i: int| 0 <= i < (a + b).len() && (a + b)[i] == x;
            if i < a.len() {
                assert(a.contains(x));
                let j = choose|j: int| 0 <= j < ca.len() && ca[j] == x;
                assert((ca + cb)[j] == x);
            } else {
                assert(b[i - a.len()] == x);
                assert(b.contains(x));
                let j = choose|j: int| 0 <= j < cb.len() && cb[j] == x;
                assert((ca + cb)[ca.len() + j] == x);
            }
        }
    }
    lemma_execute_order_independent(m, ca + cb, cab);
}

/// Replaying a batch of orders that do not fill, once executed, leaves the
/// state root unchanged.
pub proof fn lemma_replay_keeps_root(
    s0: Seq<BalanceView>,
    s1: Seq<BalanceView>,
    s2: Seq<BalanceView>,
    ops: Seq<OrderedOp>,
)
    requires
        sorted_balances(s1),
        sorted_balances(s2),
        balances_map(s1) == batch_settle(balances_map(s0), canonical_order(ops)),
        balances_map(s2) == batch_settle(balances_map(s1), canonical_order(ops)),
    ensures
        ledger_root(s2) == ledger_root(s1),
{
    lemma_execute_idempotent(balances_map(s0), canonical_order(ops));
    lemma_root_follows_balances(s1, s2);
}

/// The same orders, none of which fills, arriving in any order, lead from
/// the same state to the same state root.
pub proof fn lemma_arrival_order_same_root(
    s0: Seq<BalanceView>,
    s1: Seq<BalanceView>,
    s2: Seq<BalanceView>,
    a: Seq<OrderedOp>,
    b: Seq<OrderedOp>,
)
    requires
        sorted_balances(s1),
        sorted_balances(s2),
        a.to_multiset() == b.to_multiset(),
        balances_map(s1) == batch_settle(balances_map(s0), canonical_order(a)),
        balances_map(s2) == batch_settle(balances_map(s0), canonical_order(b)),
    ensures
        ledger_root(s1) == ledger_root(s2),
{
    lemma_arrival_order_irrelevant(balances_map(s0), a, b);
    lemma_root_follows_balances(s1, s2);
}

/// Balances after executing the same batch of orders that do not fill `n`
/// times in a row.
pub open spec fn settle_times(m: Map<BalanceKey, i64>, s: Seq<OrderedOp>, n: nat) -> Map<BalanceKey, i64>
    decreases n,
{
    if n == 0 {
        m
    } else {
        batch_settle(settle_times(m, s, (n - 1) as nat), s)
    }
}

/// Replaying a batch of orders that do not fill any number of times leaves
/// the balances where the first execution left them.
pub proof fn lemma_replay_any_number_of_times(m: Map<BalanceKey, i64>, s: Seq<OrderedOp>, n: nat)
    requires
        n >= 1,
    ensures
        settle_times(m, s, n) == batch_settle(m, s),
    decreases n,
{
    if n > 1 {
        lemma_replay_any_number_of_times(m, s, (n - 1) as nat);
        lemma_execute_idempotent(m, s);
    } else {
        assert(settle_times(m, s, 0) == m);
    }
}

/// Replaying a batch of orders that do not fill any number of times leaves
/// the state root where the first execution left it.
pub proof fn lemma_replays_keep_root(
    s0: Seq<BalanceView>,
    s1: Seq<BalanceView>,
    sn: Seq<BalanceView>,
    ops: Seq<OrderedOp>,
    n: nat,
)
    requires
        n >= 1,
        sorted_balances(s1),
        sorted_balances(sn),
        balances_map(s1) == batch_settle(balances_map(s0), canonical_order(ops)),
        balances_map(sn) == settle_times(balances_map(s0), canonical_order(ops), n),
    ensures
        ledger_root(sn) == ledger_root(s1),
{
    lemma_replay_any_number_of_times(balances_map(s0), canonical_order(ops), n);
    lemma_root_follows_balances(s1, sn);
}

/// The orders of a sequence of batches, in arrival order.
pub open spec fn chunks_concat(chunks: Seq<Seq<OrderedOp>>) -> Seq<OrderedOp>
    decreases chunks.len(),
{
    if chunks.len() == 0 {
        Seq::empty()
    } else {
        chunks[0] + chunks_concat(chunks.drop_first())
    }
}

/// Balances after executing each batch of `chunks` in turn, none of whose
/// orders fills.
pub open spec fn settle_chunks(m: Map<BalanceKey, i64>, chunks: Seq<Seq<OrderedOp>>) -> Map<BalanceKey, i64>
    decreases chunks.len(),
{
    if chunks.len() == 0 {
        m
    } else {
        settle_chunks(batch_settle(m, canonical_order(chunks[0])), chunks.drop_first())
    }
}

proof fn lemma_settle_chunks_whole(m: Map<BalanceKey, i64>, chunks: Seq<Seq<OrderedOp>>)
    ensures
        settle_chunks(m, chunks) == batch_settle(m, canonical_order(chunks_concat(chunks))),
    decreases chunks.len(),
{
    if chunks.len() == 0 {
        assert(canonical_order(Seq::<OrderedOp>::empty()) == Seq::<OrderedOp>::empty());
    } else {
        let rest = chunks.drop_first();
        let m1 = batch_settle(m, canonical_order(chunks[0]));
        lemma_settle_chunks_whole(m1, rest);
        lemma_split_batches_same_balances(m, chunks[0], chunks_concat(rest));
    }
}

/// However the same orders arrive, none of which fills, in whatever order
/// and split into whatever batches, they leave the same balances as one
/// canonical batch.
pub proof fn lemma_chunked_arrival_same_balances(
    m: Map<BalanceKey, i64>,
    chunks: Seq<Seq<OrderedOp>>,
    s: Seq<OrderedOp>,
)
    requires
        chunks_concat(chunks).to_multiset() == s.to_multiset(),
    ensures
        settle_chunks(m, chunks) == batch_settle(m, canonical_order(s)),
{
    lemma_settle_chunks_whole(m, chunks);
    lemma_arrival_order_irrelevant(m, chunks_concat(chunks), s);
}

/// However the same orders arrive, none of which fills, in whatever order
/// and split into whatever batches, they lead from the same state to the
/// same state root.
pub proof fn lemma_chunked_arrival_same_root(
    s0: Seq<BalanceView>,
    s1: Seq<BalanceView>,
    s2: Seq<BalanceView>,
    chunks: Seq<Seq<OrderedOp>>,
    s: Seq<OrderedOp>,
)
    requires
        sorted_balances(s1),
        sorted_balances(s2),
        chunks_concat(chunks).to_multiset() == s.to_multiset(),
        balances_map(s1) == settle_chunks(balances_map(s0), chunks),
        balances_map(s2) == batch_settle(balances_map(s0), canonical_order(s)),
    ensures
        ledger_root(s1) == ledger_root(s2),
{
    lemma_chunked_arrival_same_balances(balances_map(s0), chunks, s);
    lemma_root_follows_balances(s1, s2);
}

/// A trade as the engine reports it, without its time stamp:
/// (match id, maker id, taker id, price, quantity).
pub type Trade = (u64, u64, u64, u64, u64);

/// What executing orders acts on: both sides of the book, the balances,
/// the match counter, and the trades reported so far.
pub struct RunView {
    pub bids: Map<u64, Seq<Resting>>,
    pub asks: Map<u64, Seq<Resting>>,
    pub cash: Map<BalanceKey, i64>,
    pub counter: u64,
    pub trades: Seq<Trade>,
}

/// `c` advanced `n` times by one, wrapping at `u64::MAX`.
pub open spec fn advance(c: u64, n: nat) -> u64
    decreases n,
{
    if n == 0 {
        c
    } else {
        next_count(advance(c, (n - 1) as nat))
    }
}

/// The trader who pays for a fill: the buyer, who is the taker when the
/// incoming order buys and the maker otherwise.
pub open spec fn payer(op: OpPayload, f: Fill) -> u64 {
    if op.side == Side::Buy { f.1 } else { f.0 }
}

/// The trader who is paid for a fill: the seller.
pub open spec fn payee(op: OpPayload, f: Fill) -> u64 {
    if op.side == Side::Buy { f.0 } else { f.1 }
}

/// Balances after the payer of a fill has paid its notional.
pub open spec fn pay_out(m: Map<BalanceKey, i64>, op: OpPayload, f: Fill) -> Map<BalanceKey, i64> {
    let k = cash_key(payer(op, f));
    m.insert(k, (amount_or_zero(m, k) - notional(op.price, f.2)) as i64)
}

/// Balances after a fill is settled: the buyer pays the notional of the
/// filled quantity at the incoming order's price, and the seller receives it.
pub open spec fn settle_fill(m: Map<BalanceKey, i64>, op: OpPayload, f: Fill) -> Map<BalanceKey, i64> {
    let m1 = pay_out(m, op, f);
    let k = cash_key(payee(op, f));
    m1.insert(k, (amount_or_zero(m1, k) + notional(op.price, f.2)) as i64)
}

/// Whether settling a fill stays within `i64`: the product of price and
/// quantity, the payer's balance after paying and the payee's after being paid.
pub open spec fn fill_fits(m: Map<BalanceKey, i64>, op: OpPayload, f: Fill) -> bool {
    &&& i64::MIN <= (op.price as i64) * (f.2 as i64) <= i64::MAX
    &&& i64::MIN <= amount_or_zero(m, cash_key(payer(op, f))) - notional(op.price, f.2) <= i64::MAX
    &&& i64::MIN <= amount_or_zero(pay_out(m, op, f), cash_key(payee(op, f))) + notional(op.price, f.2) <= i64::MAX
}

/// Balances after settling the fills of one order in turn, or `None` when
/// one of them does not fit in `i64`.
pub open spec fn settle_fills(m: Map<BalanceKey, i64>, op: OpPayload, fills: Seq<Fill>) -> Option<Map<BalanceKey, i64>>
    decreases fills.len(),
{
    if fills.len() == 0 {
        Some(m)
    } else if !fill_fits(m, op, fills[0]) {
        None
    } else {
        settle_fills(settle_fill(m, op, fills[0]), op, fills.drop_first())
    }
}

/// Balances with the cash key `k` opened at 0 if it was not held.
pub open spec fn open_cash(m: Map<BalanceKey, i64>, k: BalanceKey) -> Map<BalanceKey, i64> {
    m.insert(k, amount_or_zero(m, k) as i64)
}

/// The trades of the fills of one order, numbered from the counter `c`
/// and reported at the order's sequenced price.
pub open spec fn trades_of(c: u64, op: OrderedOp, fills: Seq<Fill>) -> Seq<Trade> {
    Seq::new(fills.len(), |i: int| (advance(c, i as nat), fills[i].0, fills[i].1, op.price, fills[i].2))
}

/// Executing one order: it is matched against the book, each fill is
/// settled and reported, and the trader's cash key is opened; `None` when
/// a settlement does not fit in `i64`.
pub open spec fn run_step(r: RunView, op: OrderedOp) -> Option<RunView> {
    let b = book_after(r.bids, r.asks, op.payload);
    match settle_fills(r.cash, op.payload, b.2) {
        None => None,
        Some(c) => Some(
            RunView {
                bids: b.0,
                asks: b.1,
                cash: open_cash(c, cash_key(op.payload.trader_id)),
                counter: advance(r.counter, b.2.len()),
                trades: r.trades + trades_of(r.counter, op, b.2),
            },
        ),
    }
}

/// Executing the orders of `s` in turn, or `None` when one of them fails.
pub open spec fn run_batch(r: RunView, s: Seq<OrderedOp>) -> Option<RunView>
    decreases s.len(),
{
    if s.len() == 0 {
        Some(r)
    } else {
        match run_batch(r, s.drop_last()) {
            None => None,
            Some(r1) => run_step(r1, s.last()),
        }
    }
}

/// The trade an execution report stands for.
pub open spec fn report_trade(rep: ExecutionReport) -> Trade {
    (rep.match_id, rep.maker_id, rep.taker_id, rep.price, rep.qty)
}

/// The cash of a fill of `qty` at `price`: the product, each read as
/// `i64`, divided by 10 000 rounding toward zero.
pub open spec fn fill_cash(price: u64, qty: u64) -> int {
    trunc_div((price as i64) * (qty as i64), 10000)
}

/// Settling a fill moves the cash of that fill's own quantity at the
/// order's price from buyer to seller: the buyer's cash falls and the
/// seller's rises by exactly that much (nothing moves when one trader is
/// both), and no other balance changes.
pub proof fn lemma_fill_moves_its_cash(m: Map<BalanceKey, i64>, op: OpPayload, f: Fill)
    requires
        i64::MIN <= (op.price as i64) * (f.2 as i64) <= i64::MAX,
        i64::MIN <= amount_or_zero(m, cash_key(payer(op, f))) - fill_cash(op.price, f.2) <= i64::MAX,
        payer(op, f) != payee(op, f) ==> i64::MIN <= amount_or_zero(m, cash_key(payee(op, f))) + fill_cash(
            op.price,
            f.2,
        ) <= i64::MAX,
    ensures
        ({
            let after = settle_fill(m, op, f);
            let buyer = cash_key(payer(op, f));
            let seller = cash_key(payee(op, f));
            &&& buyer != seller ==> amount_or_zero(after, buyer) == amount_or_zero(m, buyer) - fill_cash(op.price, f.2)
            &&& buyer != seller ==> amount_or_zero(after, seller) == amount_or_zero(m, seller) + fill_cash(op.price, f.2)
            &&& buyer == seller ==> amount_or_zero(after, buyer) == amount_or_zero(m, buyer)
            &&& forall|k: BalanceKey| k != buyer && k != seller ==> #[trigger] amount_or_zero(after, k) == amount_or_zero(m, k)
        }),
{
}

/// The cash that the fills of one order move, fill by fill.
pub open spec fn fills_cash(price: u64, fills: Seq<Fill>) -> int
    decreases fills.len(),
{
    if fills.len() == 0 {
        0
    } else {
        fill_cash(price, fills[0].2) + fills_cash(price, fills.drop_first())
    }
}

/// Over one order, the taker's cash moves by the cash of each of its fills
/// in turn: a buying taker pays, a selling taker receives, the total of
/// what its fills' quantities are worth at its price.
pub proof fn lemma_order_moves_its_fills_cash(m: Map<BalanceKey, i64>, op: OpPayload, fills: Seq<Fill>)
    requires
        settle_fills(m, op, fills) is Some,
        fills_of(fills, op.trader_id),
        forall|i: int| 0 <= i < fills.len() ==> (#[trigger] fills[i]).0 != op.trader_id,
    ensures
        amount_or_zero(settle_fills(m, op, fills).unwrap(), cash_key(op.trader_id)) == amount_or_zero(
            m,
            cash_key(op.trader_id),
        ) + if op.side == Side::Buy {
            -fills_cash(op.price, fills)
        } else {
            fills_cash(op.price, fills)
        },
    decreases fills.len(),
{
    if fills.len() > 0 {
        let f = fills[0];
        let rest = fills.drop_first();
        assert(f.1 == op.trader_id && f.0 != op.trader_id);
        lemma_fill_moves_its_cash(m, op, f);
        assert forall|i: int| 0 <= i < rest.len() implies (#[trigger] rest[i]).0 != op.trader_id by {
            assert(rest[i] == fills[i + 1]);
        }
        assert(fills_of(rest, op.trader_id)) by {
            assert forall|i: int| 0 <= i < rest.len() implies (#[trigger] rest[i]).1 == op.trader_id && rest[i].2 > 0 by {
                assert(rest[i] == fills[i + 1]);
            }
        }
        lemma_order_moves_its_fills_cash(settle_fill(m, op, f), op, rest);
    }
}

/// Once an order of a batch fails, the batch fails.
pub proof fn lemma_run_failure_persists(r: RunView, s: Seq<OrderedOp>, k: int)
    requires
        0 <= k <= s.len(),
        run_batch(r, s.take(k)) is None,
    ensures
        run_batch(r, s) is None,
    decreases s.len(),
{
    if k == s.len() {
        assert(s.take(k) =~= s);
    } else {
        assert(s.drop_last().take(k) =~= s.take(k));
        lemma_run_failure_persists(r, s.drop_last(), k);
    }
}

/// Executing orders only adds trades.
proof fn lemma_run_trades_grow(r: RunView, s: Seq<OrderedOp>)
    requires
        run_batch(r, s) is Some,
    ensures
        run_batch(r, s).unwrap().trades.len() >= r.trades.len(),
        run_batch(r, s).unwrap().trades.len() == r.trades.len() ==> run_batch(r, s).unwrap().cash
            == batch_settle(r.cash, s),
    decreases s.len(),
{
    if s.len() > 0 {
        lemma_run_trades_grow(r, s.drop_last());
        let r1 = run_batch(r, s.drop_last()).unwrap();
        let op = s.last();
        let b = book_after(r1.bids, r1.asks, op.payload);
        let e = run_batch(r, s).unwrap();
        assert(e.trades.len() == r1.trades.len() + b.2.len());
        if e.trades.len() == r.trades.len() {
            assert(b.2.len() == 0);
            lemma_no_fill_moves_nothing(op.payload);
            assert(e.cash =~= settle(r1.cash, op.payload, 0));
        }
    }
}

proof fn lemma_advance_add(c: u64, a: nat, b: nat)
    ensures
        advance(advance(c, a), b) == advance(c, a + b),
    decreases b,
{
    if b > 0 {
        lemma_advance_add(c, a, (b - 1) as nat);
        assert((a + b - 1) as nat == a + (b - 1) as nat);
    }
}

/// Trades are numbered in turn from the match counter: executing orders
/// keeps the trades already reported, numbers each new trade with the
/// counter advanced by its position among the new ones, and leaves the
/// counter advanced by the number of new trades.
pub proof fn lemma_run_numbers_trades(r: RunView, s: Seq<OrderedOp>)
    requires
        run_batch(r, s) is Some,
    ensures
        ({
            let e = run_batch(r, s).unwrap();
            &&& e.trades.len() >= r.trades.len()
            &&& e.trades.subrange(0, r.trades.len() as int) == r.trades
            &&& e.counter == advance(r.counter, (e.trades.len() - r.trades.len()) as nat)
            &&& forall|i: int| r.trades.len() <= i < e.trades.len() ==> (#[trigger] e.trades[i]).0 == advance(
                r.counter,
                (i - r.trades.len()) as nat,
            )
        }),
    decreases s.len(),
{
    if s.len() == 0 {
        assert(r.trades.subrange(0, r.trades.len() as int) =~= r.trades);
    } else {
        lemma_run_numbers_trades(r, s.drop_last());
        let r1 = run_batch(r, s.drop_last()).unwrap();
        let op = s.last();
        let b = book_after(r1.bids, r1.asks, op.payload);
        let e = run_batch(r, s).unwrap();
        let n1 = (r1.trades.len() - r.trades.len()) as nat;
        let added = trades_of(r1.counter, op, b.2);
        assert(e.trades == r1.trades + added);
        lemma_advance_add(r.counter, n1, b.2.len());
        assert(e.trades.subrange(0, r.trades.len() as int) =~= r1.trades.subrange(0, r.trades.len() as int));
        assert forall|i: int| r.trades.len() <= i < e.trades.len() implies (#[trigger] e.trades[i]).0 == advance(
            r.counter,
            (i - r.trades.len()) as nat,
        ) by {
            if i >= r1.trades.len() {
                let j = i - r1.trades.len();
                assert(e.trades[i] == added[j]);
                lemma_advance_add(r.counter, n1, j as nat);
                assert((i - r.trades.len()) as nat == n1 + j as nat);
            } else {
                assert(e.trades[i] == r1.trades[i]);
            }
        }
    }
}

/// When nothing of a batch fills, executing it settles the balances as
/// `batch_settle` says: every trader's cash key is opened and no amount
/// moves. The laws over `batch_settle` above hold of such batches.
pub proof fn lemma_quiet_batch_settles(r: RunView, s: Seq<OrderedOp>)
    requires
        run_batch(r, s) is Some,
        run_batch(r, s).unwrap().trades == r.trades,
    ensures
        run_batch(r, s).unwrap().cash == batch_settle(r.cash, s),
{
    lemma_run_trades_grow(r, s);
}

/// Arrival order does not matter: the same orders, arriving in any order,
/// are executed in canonical order and so give the same outcome (book,
/// balances, counter and trades), when no two different orders share a
/// price and causal id.
pub proof fn lemma_run_arrival_order_irrelevant(r: RunView, s1: Seq<OrderedOp>, s2: Seq<OrderedOp>)
    requires
        s1.to_multiset() == s2.to_multiset(),
        forall|a: OrderedOp, b: OrderedOp| s1.contains(a) && s1.contains(b) && same_key(a, b) ==> a == b,
    ensures
        run_batch(r, canonical_order(s1)) == run_batch(r, canonical_order(s2)),
{
    lemma_canonical_order_deterministic(s1, s2);
}

/// A batch in which the settlement of one fill does not fit in `i64`
/// fails as a whole.
proof fn lemma_batch_refused(
    start: RunView,
    sorted: Seq<OrderedOp>,
    i: int,
    cur: RunView,
    fills: Seq<Fill>,
    m: Map<BalanceKey, i64>,
    f: int,
)
    requires
        0 <= i < sorted.len(),
        run_batch(start, sorted.take(i)) == Some(cur),
        book_after(cur.bids, cur.asks, sorted[i].payload).2 == fills,
        0 <= f < fills.len(),
        settle_fills(cur.cash, sorted[i].payload, fills) == settle_fills(m, sorted[i].payload, fills.skip(f)),
        !fill_fits(m, sorted[i].payload, fills[f]),
    ensures
        run_batch(start, sorted) is None,
{
    let rest = fills.skip(f);
    assert(rest[0] == fills[f]);
    assert(settle_fills(m, sorted[i].payload, rest) is None);
    let t = sorted.take(i + 1);
    assert(t.drop_last() =~= sorted.take(i));
    assert(t.last() == sorted[i]);
    assert(run_batch(start, t) is None);
    lemma_run_failure_persists(start, sorted, i + 1);
}

/// The engine: state, log manager, match counter and market-data hub.
pub struct Engine {
    state: State,
    wal: WalManager,
    pub match_counter: u64,
    md_hub: MarketDataHub,
}

impl Engine {
    pub closed spec fn spec_state(&self) -> State {
        self.state
    }

    pub closed spec fn spec_wal(&self) -> WalManager {
        self.wal
    }

    pub closed spec fn spec_match_counter(&self) -> u64 {
        self.match_counter
    }

    pub closed spec fn spec_hub(&self) -> MarketDataHub {
        self.md_hub
    }

    pub fn new(state: State, wal: WalManager, md_hub: MarketDataHub) -> (e: Engine)
        ensures
            e.spec_state() == state,
            e.spec_wal() == wal,
            e.spec_match_counter() == 0,
            e.spec_hub() == md_hub,
    {
        Engine { state, wal, match_counter: 0, md_hub }
    }

    /// The root of the last committed batch.
    pub fn wal_latest_root(&self) -> (root: &[u8; 32])
        ensures
            root@ == self.spec_wal().spec_latest_root(),
    {
        self.wal.latest_root()
    }

    /// The log manager.
    pub fn wal(&self) -> (wal: &WalManager)
        ensures
            *wal == self.spec_wal(),
    {
        &self.wal
    }

    /// Hands over the bytes of the committed batches still waiting to be
    /// written to the log file, oldest first.
    pub fn take_staged_batches(&mut self) -> (batches: Vec<Vec<u8>>)
        ensures
            batches@.map_values(|b: Vec<u8>| b@) == old(self).spec_wal().spec_staged(),
            final(self).spec_wal().spec_staged() == Seq::<Seq<u8>>::empty(),
            final(self).spec_wal().spec_latest_root() == old(self).spec_wal().spec_latest_root(),
            final(self).spec_wal().spec_pending_root() == old(self).spec_wal().spec_pending_root(),
            final(self).spec_wal().spec_path() == old(self).spec_wal().spec_path(),
            final(self).spec_state() == old(self).spec_state(),
            final(self).spec_match_counter() == old(self).spec_match_counter(),
            final(self).spec_hub() == old(self).spec_hub(),
    {
        self.wal.take_staged()
    }

    /// Records that the staged batches have been written durably: the root
    /// of the last committed batch becomes the log's latest root.
    pub fn mark_log_durable(&mut self)
        ensures
            final(self).spec_wal().spec_latest_root() == match old(self).spec_wal().spec_pending_root() {
                Some(r) => r,
                None => old(self).spec_wal().spec_latest_root(),
            },
            final(self).spec_wal().spec_pending_root() == None::<Seq<u8>>,
            final(self).spec_wal().spec_staged() == old(self).spec_wal().spec_staged(),
            final(self).spec_wal().spec_path() == old(self).spec_wal().spec_path(),
            final(self).spec_state() == old(self).spec_state(),
            final(self).spec_match_counter() == old(self).spec_match_counter(),
            final(self).spec_hub() == old(self).spec_hub(),
    {
        self.wal.mark_durable();
    }

    /// The state root of the current balances.
    pub fn merkle_root(&self) -> (root: [u8; 32])
        ensures
            root@ == crate::ledger::ledger_root(self.spec_state().balances@),
    {
        self.state.merkle_root()
    }

    pub fn state(&self) -> (s: &State)
        ensures
            *s == self.spec_state(),
    {
        &self.state
    }

    pub fn state_mut(&mut self) -> (s: &mut State)
        ensures
            *s == old(self).spec_state(),
            final(self).spec_state() == *final(s),
            final(self).spec_wal() == old(self).spec_wal(),
            final(self).spec_match_counter() == old(self).spec_match_counter(),
            final(self).spec_hub() == old(self).spec_hub(),
    {
        &mut self.state
    }

    /// What executing orders starts from in this engine: its book,
    /// balances and match counter, with no trades yet.
    pub open spec fn run_start(&self) -> RunView {
        RunView {
            bids: self.spec_state().book.spec_bids(),
            asks: self.spec_state().book.spec_asks(),
            cash: self.spec_state().balances.spec_map(),
            counter: self.spec_match_counter(),
            trades: Seq::empty(),
        }
    }

    /// Executes a batch: puts it in canonical order, matches each order
    /// against the book in price-time priority, and for every fill reports
    /// it (numbered by the match counter), publishes a diff and settles its
    /// notional from the buyer to the seller; each trader's cash key is
    /// opened. The batch is then committed to the log and balances are
    /// checked to be conserved. A batch whose settlement would overflow a
    /// balance is refused whole and changes nothing (see `run_batch`).
    /// Each report's time stamp is read from the system clock and is left
    /// unsaid; so is how many diffs a hub with a listener fails to deliver.
    #[verifier::loop_isolation(false)]
    pub fn execute_batch(&mut self, ops: Vec<OrderedOp>) -> (r: Result<Vec<ExecutionReport>, InvariantViolation>)
        ensures
            ({
                let sorted = canonical_order(ops@);
                let before = old(self).spec_state();
                let after = final(self).spec_state();
                match run_batch(old(self).run_start(), sorted) {
                    None => {
                        &&& r matches Err(InvariantViolation::BalanceConservation)
                        &&& *final(self) == *old(self)
                    },
                    Some(end) => {
                        &&& r matches Ok(reports) && reports@.map_values(|rep: ExecutionReport| report_trade(rep))
                            == end.trades
                        &&& after.balances.spec_map() == end.cash
                        &&& after.book.spec_bids() == end.bids
                        &&& after.book.spec_asks() == end.asks
                        &&& final(self).spec_match_counter() == end.counter
                        &&& after.match_log@ == before.match_log@
                        &&& sum_amounts(after.balances@) == sum_amounts(before.balances@)
                        &&& forall|a: Seq<char>| #[trigger] asset_total(after.balances@, a) == asset_total(before.balances@, a)
                        &&& final(self).spec_wal().spec_staged() == old(self).spec_wal().spec_staged().push(ops_log_bytes(sorted))
                        &&& final(self).spec_wal().spec_pending_root() == Some(batch_root(sorted))
                        &&& final(self).spec_wal().spec_latest_root() == old(self).spec_wal().spec_latest_root()
                        &&& final(self).spec_wal().spec_path() == old(self).spec_wal().spec_path()
                        &&& final(self).spec_hub().is_detached() == old(self).spec_hub().is_detached()
                        &&& old(self).spec_hub().is_detached() ==> final(self).spec_hub().dropped() == advance(
                            old(self).spec_hub().dropped(),
                            end.trades.len(),
                        )
                    },
                }
            }),
    {
        let ghost input = ops@;
        let mut ops = ops;
        Sequencer::sort_canonical(&mut ops);
        let ghost sorted = ops@;
        assert(sorted == canonical_order(input));
        let ghost start = self.run_start();
        let baseline = self.state.balances.clone();
        let mut work = self.state.clone();
        let mut counter: u64 = self.match_counter;
        let mut reports: Vec<ExecutionReport> = Vec::new();
        let mut diffs: Vec<DiffEvent> = Vec::new();
        let n = ops.len();
        let mut i: usize = 0;
        assert(sorted.take(0) =~= Seq::<OrderedOp>::empty());
        assert(reports@.map_values(|rep: ExecutionReport| report_trade(rep)) =~= Seq::<Trade>::empty());
        while i < n
            invariant
                n == ops@.len(),
                ops@ == sorted,
                sorted == canonical_order(input),
                i <= n,
                *self == *old(self),
                start == self.run_start(),
                run_batch(start, sorted.take(i as int)) == Some(
                    RunView {
                        bids: work.book.spec_bids(),
                        asks: work.book.spec_asks(),
                        cash: work.balances.spec_map(),
                        counter,
                        trades: reports@.map_values(|rep: ExecutionReport| report_trade(rep)),
                    },
                ),
                diffs@.len() == reports@.len(),
                work.match_log@ == self.state.match_log@,
                sum_amounts(work.balances@) == sum_amounts(self.state.balances@),
                forall|a: Seq<char>| #[trigger] asset_total(work.balances@, a) == asset_total(self.state.balances@, a),
            decreases n - i,
        {
            let op = ops[i];
            let ghost cur = run_batch(start, sorted.take(i as int)).unwrap();
            proof {
                assert(sorted.take(i + 1).drop_last() =~= sorted.take(i as int));
                assert(sorted.take(i + 1).last() == op);
            }
            let fills = work.book.process_limit(op.payload);
            let ghost cash0 = work.balances.spec_map();
            let ghost trades0 = reports@.map_values(|rep: ExecutionReport| report_trade(rep));
            let mut f: usize = 0;
            assert(fills@.skip(0) =~= fills@);
            assert(trades_of(cur.counter, op, fills@).take(0) =~= Seq::<Trade>::empty());
            assert(trades0 + Seq::<Trade>::empty() =~= trades0);
            while f < fills.len()
                invariant
                    *self == *old(self),
                    n == ops@.len(),
                    ops@ == sorted,
                    sorted == canonical_order(input),
                    i < n,
                    op == sorted[i as int],
                    start == self.run_start(),
                    run_batch(start, sorted.take(i as int)) == Some(cur),
                    cash0 == cur.cash,
                    trades0 == cur.trades,
                    f <= fills@.len(),
                    (work.book.spec_bids(), work.book.spec_asks(), fills@) == book_after(cur.bids, cur.asks, op.payload),
                    fills_of(fills@, op.payload.trader_id),
                    settle_fills(cash0, op.payload, fills@) == settle_fills(work.balances.spec_map(), op.payload, fills@.skip(f as int)),
                    counter == advance(cur.counter, f as nat),
                    reports@.map_values(|rep: ExecutionReport| report_trade(rep)) == trades0 + trades_of(cur.counter, op, fills@).take(f as int),
                    diffs@.len() == reports@.len(),
                    work.match_log@ == self.state.match_log@,
                    sum_amounts(work.balances@) == sum_amounts(self.state.balances@),
                    forall|a: Seq<char>| #[trigger] asset_total(work.balances@, a) == asset_total(self.state.balances@, a),
                decreases fills@.len() - f,
            {
                let fill = fills[f];
                let (maker_id, taker_id, fill_qty) = fill;
                let ghost m = work.balances.spec_map();
                let ghost rest = fills@.skip(f as int);
                assert(rest[0] == fill);
                assert(rest.drop_first() =~= fills@.skip(f + 1));
                let (from, to) = if op.payload.side == Side::Buy { (taker_id, maker_id) } else { (maker_id, taker_id) };
                let amount = match fill_notional(op.payload.price, fill_qty) {
                    Some(a) => a,
                    None => {
                        proof {
                            lemma_batch_refused(start, sorted, i as int, cur, fills@, m, f as int);
                        }
                        return Err(InvariantViolation::BalanceConservation);
                    },
                };
                if !credit_fits(&work.balances, from, -amount) {
                    proof {
                            lemma_batch_refused(start, sorted, i as int, cur, fills@, m, f as int);
                        }
                    return Err(InvariantViolation::BalanceConservation);
                }
                work.balances.credit(from, cash_asset(), -amount);
                if !credit_fits(&work.balances, to, amount) {
                    proof {
                            lemma_batch_refused(start, sorted, i as int, cur, fills@, m, f as int);
                        }
                    return Err(InvariantViolation::BalanceConservation);
                }
                work.balances.credit(to, cash_asset(), amount);
                assert(work.balances.spec_map() == settle_fill(m, op.payload, fill));
                let match_id = counter;
                counter = if match_id == u64::MAX { 0 } else { match_id + 1 };
                let ghost before_reports = reports@;
                reports.push(ExecutionReport {
                    match_id,
                    maker_id,
                    taker_id,
                    price: op.price,
                    qty: fill_qty,
                    timestamp_ns: unix_time_nanos(),
                });
                let side: u8 = if op.payload.side == Side::Buy { 0 } else { 1 };
                diffs.push(DiffEvent { price: op.price, qty_delta: negated(fill_qty), side, seq: match_id });
                proof {
                    let t = trades_of(cur.counter, op, fills@);
                    assert(t.take(f + 1) =~= t.take(f as int).push(t[f as int]));
                    assert(reports@.map_values(|rep: ExecutionReport| report_trade(rep)) =~= before_reports.map_values(
                        |rep: ExecutionReport| report_trade(rep),
                    ).push(report_trade(reports@.last())));
                    assert(trades0 + t.take(f + 1) =~= (trades0 + t.take(f as int)).push(t[f as int]));
                }
                f = f + 1;
            }
            work.balances.credit(op.payload.trader_id, cash_asset(), 0);
            proof {
                let t = trades_of(cur.counter, op, fills@);
                assert(t.take(fills@.len() as int) =~= t);
                assert(fills@.skip(fills@.len() as int) =~= Seq::<Fill>::empty());
            }
            i = i + 1;
        }
        assert(sorted.take(n as int) =~= sorted);
        let ghost end = run_batch(start, sorted).unwrap();
        let ghost hub0 = self.md_hub;
        self.state = work;
        self.match_counter = counter;
        let ghost done = *self;
        let mut k: usize = 0;
        while k < diffs.len()
            invariant
                k <= diffs@.len(),
                self.state == done.state,
                self.match_counter == done.match_counter,
                self.wal == done.wal,
                baseline@ == old(self).state.balances@,
                self.md_hub.is_detached() == hub0.is_detached(),
                hub0.is_detached() ==> self.md_hub.dropped() == advance(hub0.dropped(), k as nat),
            decreases diffs@.len() - k,
        {
            self.md_hub.push_diff(diffs[k]);
            k = k + 1;
        }
        let _root = self.wal.commit_batch(ops.as_slice(), &self.state);
        match validate_invariants(&self.state, &baseline) {
            Ok(()) => Ok(reports),
            Err(e) => Err(e),
        }
    }
}

/// The asset in which trades are settled, as a string.
fn cash_asset() -> (a: &'static str)
    ensures
        a@ == usd(),
{
    let a = "USD";
    proof {
        reveal_strlit("USD");
        assert(a@ =~= usd());
    }
    a
}

/// The notional of a fill, computed in `i64` as `price * qty / 10 000`,
/// or `None` when the product does not fit.
fn fill_notional(price: u64, qty: u64) -> (r: Option<i64>)
    ensures
        r is Some <==> i64::MIN <= (price as i64) * (qty as i64) <= i64::MAX,
        r matches Some(a) ==> a == notional(price, qty) && -(i64::MAX / 10000) <= a <= i64::MAX / 10000,
{
    #[verifier::truncate]
    let p: i64 = price as i64;
    #[verifier::truncate]
    let q: i64 = qty as i64;
    proof {
        lemma_i64_product_fits_i128(p as int, q as int);
    }
    let wide: i128 = (p as i128) * (q as i128);
    if wide < -9223372036854775808i128 || wide > 9223372036854775807i128 {
        None
    } else {
        let product: i64 = wide as i64;
        let a = product / 10000;
        proof {
            lemma_notional_bounds(product as int);
        }
        Some(a)
    }
}

proof fn lemma_i64_product_fits_i128(p: int, q: int)
    requires
        i64::MIN <= p <= i64::MAX,
        i64::MIN <= q <= i64::MAX,
    ensures
        i128::MIN <= p * q <= i128::MAX,
{
    assert(p * q <= 0x4000_0000_0000_0000_0000_0000_0000_0000) by (nonlinear_arith)
        requires
            -0x8000_0000_0000_0000 <= p <= 0x8000_0000_0000_0000,
            -0x8000_0000_0000_0000 <= q <= 0x8000_0000_0000_0000,
    ;
    assert(p * q >= -0x4000_0000_0000_0000_0000_0000_0000_0000) by (nonlinear_arith)
        requires
            -0x8000_0000_0000_0000 <= p <= 0x8000_0000_0000_0000,
            -0x8000_0000_0000_0000 <= q <= 0x8000_0000_0000_0000,
    ;
}

proof fn lemma_notional_bounds(x: int)
    requires
        i64::MIN <= x <= i64::MAX,
    ensures
        -(i64::MAX / 10000) <= trunc_div(x, 10000) <= i64::MAX / 10000,
{
    if x >= 0 {
        vstd::arithmetic::div_mod::lemma_div_is_ordered(x, i64::MAX as int, 10000);
    } else {
        vstd::arithmetic::div_mod::lemma_div_is_ordered(-x, i64::MAX as int + 1, 10000);
        assert((i64::MAX as int + 1) / 10000 == i64::MAX / 10000);
    }
}

/// Whether crediting `delta` to a trader's cash keeps it within `i64`.
fn credit_fits(ledger: &Ledger, trader: u64, delta: i64) -> (ok: bool)
    ensures
        ok <==> i64::MIN <= amount_or_zero(ledger.spec_map(), cash_key(trader)) + delta <= i64::MAX,
{
    let current: i64 = match ledger.get(trader, cash_asset()) {
        Some(v) => v,
        None => 0,
    };
    let total: i128 = (current as i128) + (delta as i128);
    -9223372036854775808i128 <= total && total <= 9223372036854775807i128
}

/// The negation of a filled quantity as a book change, wrapping as two's
/// complement where it does not fit.
fn negated(qty: u64) -> (d: i64)
    ensures
        d as int == if qty as i64 == i64::MIN { i64::MIN as int } else { -(qty as i64) },
{
    let q: i64 = qty as i64;
    if q == i64::MIN { i64::MIN } else { -q }
}

} // verus!

//! The limit order book: resting orders by price level, matched in
//! price-time priority (best price first, then earliest arrival).
use vstd::prelude::*;
use std::collections::{BTreeMap, VecDeque};
use crate::{OpPayload, OrderType, Side};

verus! {

broadcast use vstd::std_specs::btree::axiom_key_obeys_cmp_spec_meaning, vstd::std_specs::btree::axiom_btree_map_view_finite_dom;

/// A resting order: (trader id, quantity still open).
pub type Resting = (u64, u64);

/// A fill: (maker id, taker id, quantity).
pub type Fill = (u64, u64, u64);

/// The levels of one side of the book, by price.
pub open spec fn levels(m: Map<u64, VecDeque<Resting>>) -> Map<u64, Seq<Resting>> {
    m.map_values(|q: VecDeque<Resting>| q@)
}

/// The lowest price with resting orders.
#[verifier::opaque]
pub open spec fn lowest_price(m: Map<u64, Seq<Resting>>) -> u64 {
    choose|k: u64| m.contains_key(k) && forall|j: u64| #[trigger] m.contains_key(j) ==> k <= j
}

/// The highest price with resting orders.
#[verifier::opaque]
pub open spec fn highest_price(m: Map<u64, Seq<Resting>>) -> u64 {
    choose|k: u64| m.contains_key(k) && forall|j: u64| #[trigger] m.contains_key(j) ==> j <= k
}

/// The best price of the side a taker trades against: the lowest ask for
/// a buyer, the highest bid for a seller.
pub open spec fn best_price(m: Map<u64, Seq<Resting>>, taker_buys: bool) -> u64 {
    if taker_buys { lowest_price(m) } else { highest_price(m) }
}

/// Whether a taker may trade at `price`: a market order trades at any
/// price, a buyer at or below its limit, a seller at or above it.
pub open spec fn crosses(taker_buys: bool, market: bool, limit: u64, price: u64) -> bool {
    market || (taker_buys && price <= limit) || (!taker_buys && price >= limit)
}

/// Taking up to `qty` from one price level in arrival order: the level
/// left, the fills, and the quantity still wanted.
pub open spec fn take_level(level: Seq<Resting>, taker: u64, qty: u64) -> (Seq<Resting>, Seq<Fill>, u64)
    decreases level.len(),
{
    if qty == 0 || level.len() == 0 {
        (level, Seq::empty(), qty)
    } else {
        let maker = level[0].0;
        let open = level[0].1;
        if open <= qty {
            let rest = take_level(level.drop_first(), taker, (qty - open) as u64);
            (rest.0, if open > 0 { seq![(maker, taker, open)] + rest.1 } else { rest.1 }, rest.2)
        } else {
            (level.update(0, (maker, (open - qty) as u64)), seq![(maker, taker, qty)], 0)
        }
    }
}

/// Taking up to `qty` from the opposite side, best level first, while the
/// level price crosses: the side left, the fills, and the quantity still
/// wanted.
pub open spec fn take_book(
    m: Map<u64, Seq<Resting>>,
    taker_buys: bool,
    market: bool,
    limit: u64,
    taker: u64,
    qty: u64,
) -> (Map<u64, Seq<Resting>>, Seq<Fill>, u64)
    decreases m.dom().len(),
    when m.dom().finite()
{
    if qty == 0 || m.dom().len() == 0 {
        (m, Seq::empty(), qty)
    } else {
        let p = best_price(m, taker_buys);
        if !m.contains_key(p) || !crosses(taker_buys, market, limit, p) {
            (m, Seq::empty(), qty)
        } else {
            let lv = take_level(m[p], taker, qty);
            if lv.0.len() == 0 {
                let rest = take_book(m.remove(p), taker_buys, market, limit, taker, lv.2);
                (rest.0, lv.1 + rest.1, rest.2)
            } else {
                (m.insert(p, lv.0), lv.1, lv.2)
            }
        }
    }
}

/// The level at `price`, or an empty one.
pub open spec fn level_at(m: Map<u64, Seq<Resting>>, price: u64) -> Seq<Resting> {
    if m.contains_key(price) { m[price] } else { Seq::empty() }
}

/// The book after an incoming order: (bids, asks, fills). The order takes
/// from the opposite side in price-time priority; what is left of a
/// good-till-cancelled limit order rests at its price behind the orders
/// already there; what is left of an immediate-or-cancel or market order
/// is dropped.
pub open spec fn book_after(
    bids: Map<u64, Seq<Resting>>,
    asks: Map<u64, Seq<Resting>>,
    op: OpPayload,
) -> (Map<u64, Seq<Resting>>, Map<u64, Seq<Resting>>, Seq<Fill>) {
    let market = op.order_type == OrderType::Market;
    let rests = op.order_type == OrderType::LimitGTC;
    if op.side == Side::Buy {
        let t = take_book(asks, true, market, op.price, op.trader_id, op.qty);
        let b = if t.2 > 0 && rests {
            bids.insert(op.price, level_at(bids, op.price).push((op.trader_id, t.2)))
        } else {
            bids
        };
        (b, t.0, t.1)
    } else {
        let t = take_book(bids, false, market, op.price, op.trader_id, op.qty);
        let a = if t.2 > 0 && rests {
            asks.insert(op.price, level_at(asks, op.price).push((op.trader_id, t.2)))
        } else {
            asks
        };
        (t.0, a, t.1)
    }
}

/// Every level holds at least one order, and every resting order has
/// quantity left.
pub open spec fn valid_side(m: Map<u64, Seq<Resting>>) -> bool {
    forall|p: u64| #[trigger] m.contains_key(p) ==> m[p].len() > 0 && all_open(m[p])
}

/// Every order of a level has quantity left.
pub open spec fn all_open(level: Seq<Resting>) -> bool {
    forall|i: int| 0 <= i < level.len() ==> #[trigger] level[i].1 > 0
}

proof fn lemma_valid_remove(m: Map<u64, Seq<Resting>>, p: u64)
    requires
        valid_side(m),
        m.dom().finite(),
        m.contains_key(p),
    ensures
        valid_side(m.remove(p)),
        m.remove(p).dom().finite(),
        m.remove(p).dom().len() < m.dom().len(),
{
    assert(m.remove(p).dom() =~= m.dom().remove(p));
    assert forall|k: u64| #[trigger] m.remove(p).contains_key(k) implies m.remove(p)[k].len() > 0 && all_open(
        m.remove(p)[k],
    ) by {
        assert(m.contains_key(k));
    }
}

proof fn lemma_valid_insert(m: Map<u64, Seq<Resting>>, p: u64, level: Seq<Resting>)
    requires
        valid_side(m),
        level.len() > 0,
        all_open(level),
    ensures
        valid_side(m.insert(p, level)),
{
    assert forall|k: u64| #[trigger] m.insert(p, level).contains_key(k) implies m.insert(p, level)[k].len() > 0
        && all_open(m.insert(p, level)[k]) by {
        if k != p {
            assert(m.contains_key(k));
        }
    }
}

/// The total quantity of a list of fills.
pub open spec fn filled_qty(fills: Seq<Fill>) -> int
    decreases fills.len(),
{
    if fills.len() == 0 {
        0
    } else {
        fills[0].2 + filled_qty(fills.drop_first())
    }
}

/// Every fill has the given taker and a positive quantity.
pub open spec fn fills_of(fills: Seq<Fill>, taker: u64) -> bool {
    forall|i: int| 0 <= i < fills.len() ==> (#[trigger] fills[i]).1 == taker && fills[i].2 > 0
}

proof fn lemma_filled_concat(a: Seq<Fill>, b: Seq<Fill>)
    ensures
        filled_qty(a + b) == filled_qty(a) + filled_qty(b),
    decreases a.len(),
{
    if a.len() == 0 {
        assert(a + b =~= b);
    } else {
        lemma_filled_concat(a.drop_first(), b);
        assert((a + b).drop_first() =~= a.drop_first() + b);
    }
}

/// Taking from a valid level: fills are positive and the taker's, fill and
/// remainder add up to what was wanted, and what is left is still valid.
pub proof fn lemma_take_level(level: Seq<Resting>, taker: u64, qty: u64)
    requires
        all_open(level),
    ensures
        ({
            let r = take_level(level, taker, qty);
            &&& filled_qty(r.1) + r.2 == qty
            &&& fills_of(r.1, taker)
            &&& all_open(r.0)
            &&& r.2 <= qty
            &&& (r.2 > 0 ==> r.0.len() == 0)
        }),
    decreases level.len(),
{
    if qty == 0 || level.len() == 0 {
    } else {
        let open = level[0].1;
        if open <= qty {
            let t = level.drop_first();
            assert(all_open(t)) by {
                assert forall|i: int| 0 <= i < t.len() implies #[trigger] t[i].1 > 0 by {
                    assert(t[i] == level[i + 1]);
                }
            }
            lemma_take_level(t, taker, (qty - open) as u64);
            let rest = take_level(t, taker, (qty - open) as u64);
            let head = seq![(level[0].0, taker, open)];
            lemma_filled_concat(head, rest.1);
            assert(filled_qty(head) == open) by {
                assert(head.drop_first() =~= Seq::<Fill>::empty());
                assert(filled_qty(Seq::<Fill>::empty()) == 0);
            }
            let f = head + rest.1;
            assert forall|i: int| 0 <= i < f.len() implies (#[trigger] f[i]).1 == taker && f[i].2 > 0 by {
                if i > 0 {
                    assert(f[i] == rest.1[i - 1]);
                }
            }
        } else {
            let f = seq![(level[0].0, taker, qty)];
            assert(filled_qty(f) == qty) by {
                assert(f.drop_first() =~= Seq::<Fill>::empty());
                assert(filled_qty(Seq::<Fill>::empty()) == 0);
            }
        }
    }
}

/// Taking from a valid side: fills are positive and the taker's, fill and
/// remainder add up to what was wanted, and the side left is still valid.
pub proof fn lemma_take_book(
    m: Map<u64, Seq<Resting>>,
    taker_buys: bool,
    market: bool,
    limit: u64,
    taker: u64,
    qty: u64,
)
    requires
        m.dom().finite(),
        valid_side(m),
    ensures
        ({
            let r = take_book(m, taker_buys, market, limit, taker, qty);
            &&& filled_qty(r.1) + r.2 == qty
            &&& fills_of(r.1, taker)
            &&& valid_side(r.0)
            &&& r.0.dom().finite()
        }),
    decreases m.dom().len(),
{
    if qty == 0 || m.dom().len() == 0 {
        assert(filled_qty(Seq::<Fill>::empty()) == 0);
    } else {
        let p = best_price(m, taker_buys);
        if !m.contains_key(p) || !crosses(taker_buys, market, limit, p) {
            assert(filled_qty(Seq::<Fill>::empty()) == 0);
        } else {
            let level = m[p];
            lemma_take_level(level, taker, qty);
            let lv = take_level(level, taker, qty);
            if lv.0.len() == 0 {
                let m2 = m.remove(p);
                lemma_valid_remove(m, p);
                lemma_take_book(m2, taker_buys, market, limit, taker, lv.2);
                let rest = take_book(m2, taker_buys, market, limit, taker, lv.2);
                assert(take_book(m, taker_buys, market, limit, taker, qty) == (rest.0, lv.1 + rest.1, rest.2));
                lemma_filled_concat(lv.1, rest.1);
                let f = lv.1 + rest.1;
                assert(fills_of(f, taker)) by {
                    assert forall|i: int| 0 <= i < f.len() implies (#[trigger] f[i]).1 == taker && f[i].2 > 0 by {
                        if i >= lv.1.len() {
                            let j = i - lv.1.len();
                            assert(0 <= j < rest.1.len());
                            assert(f[i] == rest.1[j]);
                            assert(rest.1[j].1 == taker && rest.1[j].2 > 0);
                        } else {
                            assert(f[i] == lv.1[i]);
                            assert(lv.1[i].1 == taker && lv.1[i].2 > 0);
                        }
                    }
                }
            } else {
                lemma_valid_insert(m, p, lv.0);
                assert(m.insert(p, lv.0).dom() =~= m.dom());
                assert(take_book(m, taker_buys, market, limit, taker, qty) == (m.insert(p, lv.0), lv.1, lv.2));
            }
        }
    }
}

/// A finite, non-empty set of prices has a lowest and a highest one.
proof fn lemma_extreme_prices(s: Set<u64>)
    requires
        s.finite(),
        s.len() > 0,
    ensures
        exists|k: u64| s.contains(k) && forall|j: u64| #[trigger] s.contains(j) ==> k <= j,
        exists|k: u64| s.contains(k) && forall|j: u64| #[trigger] s.contains(j) ==> j <= k,
    decreases s.len(),
{
    let x = s.choose();
    let t = s.remove(x);
    if t.len() == 0 {
        t.lemma_len0_is_empty();
        assert forall|j: u64| #[trigger] s.contains(j) implies j == x by {
            if j != x {
                assert(t.contains(j));
            }
        }
        assert(s.contains(x) && forall|j: u64| #[trigger] s.contains(j) ==> x <= j);
        assert(s.contains(x) && forall|j: u64| #[trigger] s.contains(j) ==> j <= x);
    } else {
        lemma_extreme_prices(t);
        let lo = choose|k: u64| t.contains(k) && forall|j: u64| #[trigger] t.contains(j) ==> k <= j;
        let hi = choose|k: u64| t.contains(k) && forall|j: u64| #[trigger] t.contains(j) ==> j <= k;
        let a = if x < lo { x } else { lo };
        let b = if x > hi { x } else { hi };
        assert forall|j: u64| #[trigger] s.contains(j) implies a <= j && j <= b by {
            if j != x {
                assert(t.contains(j));
            }
        }
        assert(s.contains(a) && forall|j: u64| #[trigger] s.contains(j) ==> a <= j);
        assert(s.contains(b) && forall|j: u64| #[trigger] s.contains(j) ==> j <= b);
    }
}

/// The best price of a non-empty side is one of its prices, and no other
/// price of the side is better.
proof fn lemma_best_price(m: Map<u64, Seq<Resting>>, taker_buys: bool)
    requires
        m.dom().finite(),
        m.dom().len() > 0,
    ensures
        m.contains_key(best_price(m, taker_buys)),
        forall|j: u64| #[trigger] m.contains_key(j) ==> if taker_buys {
            best_price(m, taker_buys) <= j
        } else {
            j <= best_price(m, taker_buys)
        },
{
    reveal(lowest_price);
    reveal(highest_price);
    lemma_extreme_prices(m.dom());
}

/// A price that a side holds and that no other price of the side is below
/// is its lowest price.
pub proof fn lemma_lowest_price_is(m: Map<u64, Seq<Resting>>, k: u64)
    requires
        m.contains_key(k),
        forall|j: u64| #[trigger] m.contains_key(j) ==> k <= j,
    ensures
        lowest_price(m) == k,
{
    reveal(lowest_price);
    let q = lowest_price(m);
    assert(m.contains_key(q) && forall|j: u64| #[trigger] m.contains_key(j) ==> q <= j);
}

/// A price that a side holds and that no other price of the side is above
/// is its highest price.
pub proof fn lemma_highest_price_is(m: Map<u64, Seq<Resting>>, k: u64)
    requires
        m.contains_key(k),
        forall|j: u64| #[trigger] m.contains_key(j) ==> j <= k,
    ensures
        highest_price(m) == k,
{
    reveal(highest_price);
    let q = highest_price(m);
    assert(m.contains_key(q) && forall|j: u64| #[trigger] m.contains_key(j) ==> j <= q);
}

/// What taking from a side leaves: only prices it had, and, when the
/// taker still wants more, none that the taker may trade at.
pub proof fn lemma_take_book_leaves_no_cross(
    m: Map<u64, Seq<Resting>>,
    taker_buys: bool,
    market: bool,
    limit: u64,
    taker: u64,
    qty: u64,
)
    requires
        m.dom().finite(),
        valid_side(m),
    ensures
        ({
            let r = take_book(m, taker_buys, market, limit, taker, qty);
            &&& forall|p: u64| #[trigger] r.0.contains_key(p) ==> m.contains_key(p)
            &&& r.2 > 0 ==> forall|p: u64| #[trigger] r.0.contains_key(p) ==> !crosses(taker_buys, market, limit, p)
        }),
    decreases m.dom().len(),
{
    if qty == 0 {
    } else if m.dom().len() == 0 {
        m.dom().lemma_len0_is_empty();
        assert forall|p: u64| #[trigger] m.contains_key(p) implies false by {
            assert(m.dom().contains(p));
        }
    } else {
        let p = best_price(m, taker_buys);
        lemma_best_price(m, taker_buys);
        if !crosses(taker_buys, market, limit, p) {
        } else {
            let level = m[p];
            lemma_take_level(level, taker, qty);
            let lv = take_level(level, taker, qty);
            if lv.0.len() == 0 {
                lemma_valid_remove(m, p);
                lemma_take_book_leaves_no_cross(m.remove(p), taker_buys, market, limit, taker, lv.2);
            }
        }
    }
}

/// What an incoming order leaves on its own side: nothing new when it is
/// filled whole, is a market or immediate-or-cancel order; otherwise its
/// unfilled quantity, its order quantity less what filled, rests at its
/// price behind the orders already there. Its fills never exceed its
/// quantity.
pub proof fn lemma_rest_is_unfilled_quantity(
    bids: Map<u64, Seq<Resting>>,
    asks: Map<u64, Seq<Resting>>,
    op: OpPayload,
)
    requires
        bids.dom().finite(),
        asks.dom().finite(),
        valid_side(bids),
        valid_side(asks),
    ensures
        ({
            let r = book_after(bids, asks, op);
            let filled = filled_qty(r.2);
            let rests = op.order_type == OrderType::LimitGTC && filled < op.qty;
            let own = if op.side == Side::Buy { bids } else { asks };
            let own_after = if op.side == Side::Buy { r.0 } else { r.1 };
            &&& 0 <= filled <= op.qty
            &&& fills_of(r.2, op.trader_id)
            &&& own_after == if rests {
                own.insert(op.price, level_at(own, op.price).push((op.trader_id, (op.qty - filled) as u64)))
            } else {
                own
            }
        }),
{
    let market = op.order_type == OrderType::Market;
    if op.side == Side::Buy {
        lemma_take_book(asks, true, market, op.price, op.trader_id, op.qty);
        lemma_filled_nonnegative(take_book(asks, true, market, op.price, op.trader_id, op.qty).1);
    } else {
        lemma_take_book(bids, false, market, op.price, op.trader_id, op.qty);
        lemma_filled_nonnegative(take_book(bids, false, market, op.price, op.trader_id, op.qty).1);
    }
}

proof fn lemma_filled_nonnegative(fills: Seq<Fill>)
    ensures
        filled_qty(fills) >= 0,
    decreases fills.len(),
{
    if fills.len() > 0 {
        lemma_filled_nonnegative(fills.drop_first());
    }
}

/// Every bid is below every ask.
pub open spec fn uncrossed(bids: Map<u64, Seq<Resting>>, asks: Map<u64, Seq<Resting>>) -> bool {
    forall|b: u64, a: u64| #[trigger] bids.contains_key(b) && #[trigger] asks.contains_key(a) ==> b < a
}

/// The book never stays crossed: if every bid was below every ask before
/// an incoming order, the same holds after it, whatever the order.
pub proof fn lemma_book_stays_uncrossed(bids: Map<u64, Seq<Resting>>, asks: Map<u64, Seq<Resting>>, op: OpPayload)
    requires
        bids.dom().finite(),
        asks.dom().finite(),
        valid_side(bids),
        valid_side(asks),
        uncrossed(bids, asks),
    ensures
        uncrossed(book_after(bids, asks, op).0, book_after(bids, asks, op).1),
{
    let market = op.order_type == OrderType::Market;
    let r = book_after(bids, asks, op);
    if op.side == Side::Buy {
        lemma_take_book_leaves_no_cross(asks, true, market, op.price, op.trader_id, op.qty);
        assert forall|b: u64, a: u64| #[trigger] r.0.contains_key(b) && #[trigger] r.1.contains_key(a) implies b < a by {
            assert(asks.contains_key(a));
            if !bids.contains_key(b) {
                assert(b == op.price);
            }
        }
    } else {
        lemma_take_book_leaves_no_cross(bids, false, market, op.price, op.trader_id, op.qty);
        assert forall|b: u64, a: u64| #[trigger] r.0.contains_key(b) && #[trigger] r.1.contains_key(a) implies b < a by {
            assert(bids.contains_key(b));
            if !asks.contains_key(a) {
                assert(a == op.price);
            }
        }
    }
}

/// Integer keys obey the ordering laws that the map's specification asks for.
proof fn lemma_price_keys_ordered()
    ensures
        vstd::laws_cmp::obeys_cmp::<u64>(),
{
    broadcast use vstd::laws_cmp::group_laws_cmp;

}

/// Calls `BTreeMap::first_key_value` and keeps the key. Trusted: as the
/// standard library documents, it is the smallest key, and there is one
/// exactly when the map is not empty.
#[verifier::external_body]
fn first_price(m: &BTreeMap<u64, VecDeque<Resting>>) -> (p: Option<u64>)
    ensures
        p is None ==> m@.dom().len() == 0,
        p matches Some(k) ==> m@.contains_key(k) && forall|j: u64| #[trigger] m@.contains_key(j) ==> k <= j,
{
    m.first_key_value().map(|(k, _)| *k)
}

/// Calls `BTreeMap::last_key_value` and keeps the key. Trusted: as the
/// standard library documents, it is the largest key, and there is one
/// exactly when the map is not empty.
#[verifier::external_body]
fn last_price(m: &BTreeMap<u64, VecDeque<Resting>>) -> (p: Option<u64>)
    ensures
        p is None ==> m@.dom().len() == 0,
        p matches Some(k) ==> m@.contains_key(k) && forall|j: u64| #[trigger] m@.contains_key(j) ==> j <= k,
{
    m.last_key_value().map(|(k, _)| *k)
}

/// Takes up to `qty` from `level` in arrival order, appending the fills.
fn fill_from_level(level: &mut VecDeque<Resting>, taker: u64, qty: u64, fills: &mut Vec<Fill>) -> (left: u64)
    ensures
        final(level)@ == take_level(old(level)@, taker, qty).0,
        final(fills)@ == old(fills)@ + take_level(old(level)@, taker, qty).1,
        left == take_level(old(level)@, taker, qty).2,
{
    let ghost target = take_level(level@, taker, qty);
    let ghost start = fills@;
    let mut wanted = qty;
    assert(start + target.1 == fills@ + take_level(level@, taker, wanted).1);
    loop
        invariant_except_break
            target.0 == take_level(level@, taker, wanted).0,
            target.2 == take_level(level@, taker, wanted).2,
            start + target.1 == fills@ + take_level(level@, taker, wanted).1,
        ensures
            target.0 == level@,
            target.2 == wanted,
            fills@ == start + target.1,
        decreases level@.len(),
    {
        if wanted == 0 {
            assert(fills@ + Seq::<Fill>::empty() =~= fills@);
            break;
        }
        let ghost before = level@;
        let ghost before_fills = fills@;
        match level.pop_front() {
            None => {
                assert(fills@ + Seq::<Fill>::empty() =~= fills@);
                break;
            },
            Some(front) => {
                let (maker, open) = front;
                assert(level@ =~= before.drop_first());
                if open <= wanted {
                    if open > 0 {
                        fills.push((maker, taker, open));
                    }
                    let ghost w0 = wanted;
                    wanted = wanted - open;
                    proof {
                        let rest = take_level(before.drop_first(), taker, wanted);
                        assert(take_level(before, taker, w0) == (
                            rest.0,
                            if open > 0 { seq![(maker, taker, open)] + rest.1 } else { rest.1 },
                            rest.2,
                        ));
                        if open > 0 {
                            assert(fills@ =~= before_fills.push((maker, taker, open)));
                            assert(before_fills + (seq![(maker, taker, open)] + rest.1) =~= fills@ + rest.1);
                        }
                    }
                } else {
                    let ghost w0 = wanted;
                    level.push_front((maker, open - wanted));
                    fills.push((maker, taker, wanted));
                    assert(level@ =~= before.update(0, (maker, (open - w0) as u64)));
                    assert(fills@ =~= before_fills + seq![(maker, taker, w0)]);
                    wanted = 0;
                    break;
                }
            },
        }
    }
    wanted
}

/// Resting orders by price level: each level holds (trader id, open
/// quantity) in arrival order.
#[derive(Debug)]
pub struct LimitBook {
    bids: BTreeMap<u64, VecDeque<Resting>>,
    asks: BTreeMap<u64, VecDeque<Resting>>,
}

/// Takes from one side of the book, best level first (see `take_book`),
/// appending the fills; returns the quantity still wanted.
#[verifier::rlimit(40)]
fn take_from_side(
    side: &mut BTreeMap<u64, VecDeque<Resting>>,
    taker_buys: bool,
    market: bool,
    limit: u64,
    taker: u64,
    qty: u64,
    fills: &mut Vec<Fill>,
) -> (left: u64)
    requires
        valid_side(levels(old(side)@)),
    ensures
        levels(final(side)@) == take_book(levels(old(side)@), taker_buys, market, limit, taker, qty).0,
        final(fills)@ == old(fills)@ + take_book(levels(old(side)@), taker_buys, market, limit, taker, qty).1,
        left == take_book(levels(old(side)@), taker_buys, market, limit, taker, qty).2,
{
    proof {
        lemma_price_keys_ordered();
    }
    assert(levels(side@).dom() =~= side@.dom());
    let ghost target = take_book(levels(side@), taker_buys, market, limit, taker, qty);
    let ghost start = fills@;
    let mut wanted = qty;
    assert(start + target.1 == fills@ + take_book(levels(side@), taker_buys, market, limit, taker, wanted).1);
    loop
        invariant_except_break
            levels(side@).dom() == side@.dom(),
            side@.dom().finite(),
            valid_side(levels(side@)),
            target.0 == take_book(levels(side@), taker_buys, market, limit, taker, wanted).0,
            target.2 == take_book(levels(side@), taker_buys, market, limit, taker, wanted).2,
            start + target.1 == fills@ + take_book(levels(side@), taker_buys, market, limit, taker, wanted).1,
        ensures
            target.0 == levels(side@),
            target.2 == wanted,
            fills@ == start + target.1,
        decreases side@.dom().len(),
    {
        let ghost m = levels(side@);
        if wanted == 0 {
            assert(fills@ + Seq::<Fill>::empty() =~= fills@);
            break;
        }
        let best = if taker_buys { first_price(side) } else { last_price(side) };
        let p = match best {
            None => {
                assert(m.dom().len() == 0);
                assert(fills@ + Seq::<Fill>::empty() =~= fills@);
                break;
            },
            Some(p) => p,
        };
        assert(m.contains_key(p));
        assert(m.dom().len() != 0) by {
            if m.dom().len() == 0 {
                assert(m.dom().contains(p));
            }
        }
        assert(best_price(m, taker_buys) == p) by {
            reveal(lowest_price);
            reveal(highest_price);
            if taker_buys {
                assert(forall|j: u64| #[trigger] m.contains_key(j) ==> p <= j);
                let q = lowest_price(m);
                assert(m.contains_key(q) && forall|j: u64| #[trigger] m.contains_key(j) ==> q <= j);
                assert(q <= p && p <= q);
            } else {
                assert(forall|j: u64| #[trigger] m.contains_key(j) ==> j <= p);
                let q = highest_price(m);
                assert(m.contains_key(q) && forall|j: u64| #[trigger] m.contains_key(j) ==> j <= q);
                assert(q <= p && p <= q);
            }
        }
        let can_trade = market || (taker_buys && p <= limit) || (!taker_buys && p >= limit);
        if !can_trade {
            assert(fills@ + Seq::<Fill>::empty() =~= fills@);
            break;
        }
        let ghost before_fills = fills@;
        let ghost w0 = wanted;
        let removed = side.remove(&p);
        let mut level = match removed {
            Some(l) => l,
            None => {
                proof {
                    assert(false);
                }
                VecDeque::new()
            },
        };
        assert(level@ == m[p]);
        assert(levels(side@) =~= m.remove(p));
        proof {
            lemma_take_level(m[p], taker, w0);
        }
        wanted = fill_from_level(&mut level, taker, wanted, fills);
        let ghost lv = take_level(m[p], taker, w0);
        if level.len() == 0 {
            proof {
                assert(lv.0.len() == 0);
                let rest = take_book(m.remove(p), taker_buys, market, limit, taker, lv.2);
                assert(take_book(m, taker_buys, market, limit, taker, w0) == (rest.0, lv.1 + rest.1, rest.2));
                assert(start + target.1 == before_fills + (lv.1 + rest.1));
                assert(before_fills + (lv.1 + rest.1) =~= fills@ + rest.1);
                assert(levels(side@).dom() =~= side@.dom());
            }
        } else {
            side.insert(p, level);
            proof {
                assert(lv.0.len() != 0);
                assert(take_book(m, taker_buys, market, limit, taker, w0) == (m.insert(p, lv.0), lv.1, lv.2));
                assert(levels(side@) =~= m.insert(p, lv.0));
            }
            break;
        }
    }
    wanted
}

impl LimitBook {
    /// The bid levels, by price.
    pub closed spec fn spec_bids(&self) -> Map<u64, Seq<Resting>> {
        levels(self.bids@)
    }

    /// The ask levels, by price.
    pub closed spec fn spec_asks(&self) -> Map<u64, Seq<Resting>> {
        levels(self.asks@)
    }

    #[verifier::type_invariant]
    spec fn well_formed(self) -> bool {
        valid_side(levels(self.bids@)) && valid_side(levels(self.asks@))
    }

    /// No order rests on either side.
    pub open spec fn is_empty(&self) -> bool {
        self.spec_bids() == Map::<u64, Seq<Resting>>::empty() && self.spec_asks() == Map::<
            u64,
            Seq<Resting>,
        >::empty()
    }

    /// An empty book.
    pub fn new() -> (book: LimitBook)
        ensures
            book.is_empty(),
            uncrossed(book.spec_bids(), book.spec_asks()),
    {
        let book = LimitBook { bids: BTreeMap::new(), asks: BTreeMap::new() };
        assert(book.spec_bids() =~= Map::<u64, Seq<Resting>>::empty());
        assert(book.spec_asks() =~= Map::<u64, Seq<Resting>>::empty());
        book
    }

    /// Matches an incoming order against the book in price-time priority
    /// and returns the fills as (maker id, taker id, quantity), in the
    /// order they happen (see `book_after`).
    pub fn process_limit(&mut self, op: OpPayload) -> (fills: Vec<Fill>)
        ensures
            (final(self).spec_bids(), final(self).spec_asks(), fills@) == book_after(
                old(self).spec_bids(),
                old(self).spec_asks(),
                op,
            ),
            fills_of(fills@, op.trader_id),
            filled_qty(fills@) <= op.qty,
            uncrossed(old(self).spec_bids(), old(self).spec_asks()) ==> uncrossed(
                final(self).spec_bids(),
                final(self).spec_asks(),
            ),
            ({
                let own = if op.side == Side::Buy { old(self).spec_bids() } else { old(self).spec_asks() };
                let own_after = if op.side == Side::Buy { final(self).spec_bids() } else { final(self).spec_asks() };
                own_after == if op.order_type == OrderType::LimitGTC && filled_qty(fills@) < op.qty {
                    own.insert(op.price, level_at(own, op.price).push((op.trader_id, (op.qty - filled_qty(fills@)) as u64)))
                } else {
                    own
                }
            }),
    {
        proof {
            use_type_invariant(&*self);
            lemma_price_keys_ordered();
            assert(levels(self.bids@).dom() =~= self.bids@.dom());
            assert(levels(self.asks@).dom() =~= self.asks@.dom());
            if uncrossed(self.spec_bids(), self.spec_asks()) {
                lemma_book_stays_uncrossed(self.spec_bids(), self.spec_asks(), op);
            }
            lemma_rest_is_unfilled_quantity(self.spec_bids(), self.spec_asks(), op);
        }
        let mut fills: Vec<Fill> = Vec::new();
        let market = op.order_type == OrderType::Market;
        let rests = op.order_type == OrderType::LimitGTC;
        let mut bids = BTreeMap::new();
        let mut asks = BTreeMap::new();
        std::mem::swap(&mut bids, &mut self.bids);
        std::mem::swap(&mut asks, &mut self.asks);
        let ghost b0 = levels(bids@);
        let ghost a0 = levels(asks@);
        assert(b0.dom() =~= bids@.dom());
        assert(a0.dom() =~= asks@.dom());
        assert(fills@ + Seq::<Fill>::empty() =~= fills@);
        if op.side == Side::Buy {
            proof {
                lemma_take_book(a0, true, market, op.price, op.trader_id, op.qty);
            }
            let left = take_from_side(&mut asks, true, market, op.price, op.trader_id, op.qty, &mut fills);
            assert(fills@ =~= take_book(a0, true, market, op.price, op.trader_id, op.qty).1);
            if left > 0 && rests {
                let mut level = match bids.remove(&op.price) {
                    Some(l) => l,
                    None => VecDeque::new(),
                };
                assert(level@ == level_at(b0, op.price));
                level.push_back((op.trader_id, left));
                bids.insert(op.price, level);
                assert(levels(bids@) =~= b0.insert(op.price, level_at(b0, op.price).push((op.trader_id, left))));
            }
        } else {
            proof {
                lemma_take_book(b0, false, market, op.price, op.trader_id, op.qty);
            }
            let left = take_from_side(&mut bids, false, market, op.price, op.trader_id, op.qty, &mut fills);
            assert(fills@ =~= take_book(b0, false, market, op.price, op.trader_id, op.qty).1);
            if left > 0 && rests {
                let mut level = match asks.remove(&op.price) {
                    Some(l) => l,
                    None => VecDeque::new(),
                };
                assert(level@ == level_at(a0, op.price));
                level.push_back((op.trader_id, left));
                asks.insert(op.price, level);
                assert(levels(asks@) =~= a0.insert(op.price, level_at(a0, op.price).push((op.trader_id, left))));
            }
        }
        self.bids = bids;
        self.asks = asks;
        fills
    }
}

impl Clone for LimitBook {
    fn clone(&self) -> (copy: LimitBook)
        ensures
            copy.spec_bids() == self.spec_bids(),
            copy.spec_asks() == self.spec_asks(),
    {
        proof {
            use_type_invariant(self);
        }
        LimitBook { bids: self.bids.clone(), asks: self.asks.clone() }
    }
}

impl Default for LimitBook {
    fn default() -> (book: LimitBook)
        ensures
            book.is_empty(),
    {
        LimitBook::new()
    }
}

} // verus!

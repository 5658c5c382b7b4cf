//! Balances keyed by (trader, asset), kept in canonical key order so that
//! everything computed from them depends only on which balances they hold.
use vstd::prelude::*;
use vstd::bytes::*;
use vstd::utf8::*;
use crate::digest::{append_bytes, sha256, spec_sha256};
use crate::lexical::{
    bytes_lt, lemma_bytes_lt_irreflexive, lemma_bytes_lt_transitive, lemma_bytes_lt_asymmetric, order_bytes,
    KeyOrder,
};

verus! {

/// A balance as seen by specifications: (trader, asset, amount).
pub type BalanceView = (u64, Seq<char>, i64);

/// A balance key: (trader, asset).
pub type BalanceKey = (u64, Seq<char>);

/// One balance of the ledger.
#[derive(Debug, Clone)]
pub struct Balance {
    pub trader: u64,
    pub asset: String,
    pub amount: i64,
}

impl View for Balance {
    type V = BalanceView;

    open spec fn view(&self) -> BalanceView {
        (self.trader, self.asset@, self.amount)
    }
}

/// Key order: by trader, then by the UTF-8 bytes of the asset.
pub open spec fn key_lt(a: BalanceKey, b: BalanceKey) -> bool {
    a.0 < b.0 || (a.0 == b.0 && bytes_lt(encode_utf8(a.1), encode_utf8(b.1)))
}

pub open spec fn key_of(b: BalanceView) -> BalanceKey {
    (b.0, b.1)
}

/// Balances in strictly increasing key order (so no key occurs twice).
pub open spec fn sorted_balances(s: Seq<BalanceView>) -> bool {
    forall|i: int, j: int| 0 <= i < j < s.len() ==> key_lt(#[trigger] key_of(s[i]), #[trigger] key_of(s[j]))
}

/// The map from key to amount that a sequence of balances holds.
pub open spec fn balances_map(s: Seq<BalanceView>) -> Map<BalanceKey, i64>
    decreases s.len(),
{
    if s.len() == 0 {
        Map::empty()
    } else {
        balances_map(s.drop_first()).insert(key_of(s[0]), s[0].2)
    }
}

/// The sum of all amounts.
pub open spec fn sum_amounts(s: Seq<BalanceView>) -> int
    decreases s.len(),
{
    if s.len() == 0 {
        0
    } else {
        sum_amounts(s.drop_last()) + s.last().2
    }
}

/// The amount held under `k`, or 0 where there is none.
pub open spec fn amount_or_zero(m: Map<BalanceKey, i64>, k: BalanceKey) -> int {
    if m.contains_key(k) { m[k] as int } else { 0 }
}

/// The bytes that the state root hashes: for each balance in key order,
/// the trader (u64, little endian), the asset's UTF-8 bytes, and the
/// amount (i64, little endian).
pub open spec fn root_preimage(s: Seq<BalanceView>) -> Seq<u8>
    decreases s.len(),
{
    if s.len() == 0 {
        Seq::empty()
    } else {
        root_preimage(s.drop_last()) + spec_u64_to_le_bytes(s.last().0) + encode_utf8(s.last().1)
            + spec_u64_to_le_bytes(s.last().2 as u64)
    }
}

/// The state root of a ledger holding `s`.
pub open spec fn ledger_root(s: Seq<BalanceView>) -> Seq<u8> {
    spec_sha256(root_preimage(s))
}

/// The length of the state root's preimage: 16 bytes per balance (trader
/// and amount) plus the UTF-8 bytes of its asset.
pub open spec fn preimage_len(s: Seq<BalanceView>) -> int
    decreases s.len(),
{
    if s.len() == 0 {
        0
    } else {
        preimage_len(s.drop_first()) + 16 + encode_utf8(s[0].1).len()
    }
}

proof fn lemma_preimage_len_last(s: Seq<BalanceView>)
    requires
        s.len() > 0,
    ensures
        preimage_len(s) == preimage_len(s.drop_last()) + 16 + encode_utf8(s.last().1).len(),
    decreases s.len(),
{
    if s.len() > 1 {
        lemma_preimage_len_last(s.drop_first());
        assert(s.drop_first().drop_last() =~= s.drop_last().drop_first());
        assert(s.drop_first().last() == s.last());
        assert(s.drop_last()[0] == s[0]);
        assert(preimage_len(s.drop_last()) == preimage_len(s.drop_last().drop_first()) + 16 + encode_utf8(
            s.drop_last()[0].1,
        ).len());
    } else {
        assert(s.drop_last().len() == 0);
        assert(s.drop_first().len() == 0);
        assert(preimage_len(s.drop_last()) == 0);
        assert(preimage_len(s.drop_first()) == 0);
        assert(s.last() == s[0]);
    }
}

/// The state root's preimage holds every balance whole: its length is 16
/// bytes per balance plus the assets' UTF-8 bytes, and it ends with the
/// last balance's trader, asset and amount.
pub proof fn lemma_preimage_holds_every_balance(s: Seq<BalanceView>)
    ensures
        root_preimage(s).len() == preimage_len(s),
        s.len() > 0 ==> root_preimage(s).subrange(
            root_preimage(s).len() - 8,
            root_preimage(s).len() as int,
        ) == spec_u64_to_le_bytes(s.last().2 as u64),
    decreases s.len(),
{
    lemma_auto_spec_u64_to_from_le_bytes();
    if s.len() > 0 {
        lemma_preimage_holds_every_balance(s.drop_last());
        lemma_preimage_len_last(s);
        let p = root_preimage(s);
        let x = root_preimage(s.drop_last()) + spec_u64_to_le_bytes(s.last().0) + encode_utf8(s.last().1);
        assert(p == x + spec_u64_to_le_bytes(s.last().2 as u64));
        assert(p.subrange(x.len() as int, p.len() as int) =~= spec_u64_to_le_bytes(s.last().2 as u64));
    }
}

/// Two ledgers holding the same keys in the same order have the same root
/// preimage only when every amount is the same too: changing any balance
/// changes the preimage.
pub proof fn lemma_preimage_tells_amounts_apart(s1: Seq<BalanceView>, s2: Seq<BalanceView>)
    requires
        s1.len() == s2.len(),
        forall|i: int| 0 <= i < s1.len() ==> key_of(#[trigger] s1[i]) == key_of(s2[i]),
        root_preimage(s1) == root_preimage(s2),
    ensures
        s1 == s2,
    decreases s1.len(),
{
    lemma_auto_spec_u64_to_from_le_bytes();
    if s1.len() == 0 {
        assert(s1 =~= s2);
    } else {
        let t1 = s1.drop_last();
        let t2 = s2.drop_last();
        let n = s1.len() - 1;
        assert(key_of(s1[n]) == key_of(s2[n]));
        let k = spec_u64_to_le_bytes(s1.last().0) + encode_utf8(s1.last().1);
        let c1 = spec_u64_to_le_bytes(s1.last().2 as u64);
        let c2 = spec_u64_to_le_bytes(s2.last().2 as u64);
        let p = root_preimage(s1);
        assert(p == root_preimage(t1) + k + c1) by {
            assert(root_preimage(t1) + spec_u64_to_le_bytes(s1.last().0) + encode_utf8(s1.last().1) =~= root_preimage(t1) + k);
        }
        assert(p == root_preimage(t2) + k + c2) by {
            assert(s2.last().0 == s1.last().0 && s2.last().1 == s1.last().1);
            assert(root_preimage(t2) + spec_u64_to_le_bytes(s2.last().0) + encode_utf8(s2.last().1) =~= root_preimage(t2) + k);
        }
        let l1 = root_preimage(t1).len();
        let l2 = root_preimage(t2).len();
        assert(c1.len() == 8 && c2.len() == 8);
        assert((root_preimage(t1) + k + c1).len() == l1 + k.len() + 8);
        assert((root_preimage(t2) + k + c2).len() == l2 + k.len() + 8);
        assert(l1 == l2);
        assert(p.subrange(0, l1 as int) =~= root_preimage(t1));
        assert(p.subrange(0, l2 as int) =~= root_preimage(t2));
        assert(p.subrange((l1 + k.len()) as int, p.len() as int) =~= c1);
        assert(p.subrange((l2 + k.len()) as int, p.len() as int) =~= c2);
        let a1 = s1.last().2;
        let a2 = s2.last().2;
        assert(spec_u64_from_le_bytes(c1) == a1 as u64);
        assert(a1 == a2) by (bit_vector)
            requires
                a1 as u64 == a2 as u64,
        ;
        assert forall|i: int| 0 <= i < t1.len() implies key_of(#[trigger] t1[i]) == key_of(t2[i]) by {
            assert(t1[i] == s1[i] && t2[i] == s2[i]);
        }
        lemma_preimage_tells_amounts_apart(t1, t2);
        assert(s1 =~= s2) by {
            assert forall|i: int| 0 <= i < s1.len() implies s1[i] == s2[i] by {
                if i < n {
                    assert(t1[i] == s1[i] && t2[i] == s2[i]);
                }
            }
        }
    }
}

/// UTF-8 encoding tells strings apart.
pub proof fn lemma_encode_injective(a: Seq<char>, b: Seq<char>)
    requires
        encode_utf8(a) == encode_utf8(b),
    ensures
        a == b,
{
    encode_utf8_decode_utf8(a);
    encode_utf8_decode_utf8(b);
}

pub proof fn lemma_key_lt_transitive(a: BalanceKey, b: BalanceKey, c: BalanceKey)
    requires
        key_lt(a, b),
        key_lt(b, c),
    ensures
        key_lt(a, c),
{
    if a.0 == b.0 && b.0 == c.0 {
        lemma_bytes_lt_transitive(encode_utf8(a.1), encode_utf8(b.1), encode_utf8(c.1));
    }
}

pub proof fn lemma_key_lt_irreflexive(a: BalanceKey)
    ensures
        !key_lt(a, a),
{
}

pub proof fn lemma_key_lt_asymmetric(a: BalanceKey, b: BalanceKey)
    requires
        key_lt(a, b),
    ensures
        !key_lt(b, a),
        a != b,
{
    if a.0 == b.0 {
        lemma_bytes_lt_asymmetric(encode_utf8(a.1), encode_utf8(b.1));
    }
}

/// In a sorted sequence, every position's key is held, with that position's amount,
/// and nothing else is held.
pub proof fn lemma_balances_map_index(s: Seq<BalanceView>)
    requires
        sorted_balances(s),
    ensures
        forall|i: int| 0 <= i < s.len() ==> #[trigger] balances_map(s).contains_key(key_of(s[i]))
            && balances_map(s)[key_of(s[i])] == s[i].2,
        forall|k: BalanceKey| #[trigger] balances_map(s).contains_key(k) ==> exists|i: int| 0 <= i < s.len() && key_of(s[i]) == k,
    decreases s.len(),
{
    if s.len() > 0 {
        let t = s.drop_first();
        assert(sorted_balances(t)) by {
            assert forall|i: int, j: int| 0 <= i < j < t.len() implies key_lt(#[trigger] key_of(t[i]), #[trigger] key_of(t[j])) by {
                assert(key_of(t[i]) == key_of(s[i + 1]));
                assert(key_of(t[j]) == key_of(s[j + 1]));
            }
        }
        lemma_balances_map_index(t);
        assert forall|i: int| 0 <= i < s.len() implies #[trigger] balances_map(s).contains_key(key_of(s[i]))
            && balances_map(s)[key_of(s[i])] == s[i].2 by {
            if i > 0 {
                assert(key_of(s[i]) == key_of(t[i - 1]));
                assert(s[i] == t[i - 1]);
                assert(balances_map(t).contains_key(key_of(t[i - 1])));
                assert(key_lt(key_of(s[0]), key_of(s[i])));
                lemma_key_lt_asymmetric(key_of(s[0]), key_of(s[i]));
            }
        }
        assert forall|k: BalanceKey| #[trigger] balances_map(s).contains_key(k) implies exists|i: int| 0 <= i < s.len() && key_of(s[i]) == k by {
            if k != key_of(s[0]) {
                assert(balances_map(t).contains_key(k));
                let j = choose|j: int| 0 <= j < t.len() && key_of(t[j]) == k;
                assert(s[j + 1] == t[j]);
                assert(key_of(s[j + 1]) == k);
            }
        }
    }
}

/// Two sorted sequences that hold the same balances are the same sequence.
pub proof fn lemma_sorted_balances_canonical(s1: Seq<BalanceView>, s2: Seq<BalanceView>)
    requires
        sorted_balances(s1),
        sorted_balances(s2),
        balances_map(s1) == balances_map(s2),
    ensures
        s1 == s2,
    decreases s1.len(),
{
    lemma_balances_map_index(s1);
    lemma_balances_map_index(s2);
    if s1.len() == 0 {
        if s2.len() > 0 {
            assert(balances_map(s2).contains_key(key_of(s2[0])));
        }
        assert(s1 =~= s2);
    } else if s2.len() == 0 {
        assert(balances_map(s1).contains_key(key_of(s1[0])));
    } else {
        let k1 = key_of(s1[0]);
        let k2 = key_of(s2[0]);
        assert(balances_map(s2).contains_key(k1));
        assert(balances_map(s1).contains_key(k2));
        let j = choose|j: int| 0 <= j < s2.len() && key_of(s2[j]) == k1;
        let i = choose|i: int| 0 <= i < s1.len() && key_of(s1[i]) == k2;
        if j > 0 {
            assert(key_lt(k2, k1));
            if i > 0 {
                assert(key_lt(k1, k2));
                lemma_key_lt_asymmetric(k2, k1);
            } else {
                lemma_key_lt_irreflexive(k1);
            }
        }
        assert(k1 == k2);
        assert(s1[0] == s2[0]);
        let t1 = s1.drop_first();
        let t2 = s2.drop_first();
        assert(sorted_balances(t1)) by {
            assert forall|a: int, b: int| 0 <= a < b < t1.len() implies key_lt(#[trigger] key_of(t1[a]), #[trigger] key_of(t1[b])) by {
                assert(key_of(t1[a]) == key_of(s1[a + 1]));
                assert(key_of(t1[b]) == key_of(s1[b + 1]));
            }
        }
        assert(sorted_balances(t2)) by {
            assert forall|a: int, b: int| 0 <= a < b < t2.len() implies key_lt(#[trigger] key_of(t2[a]), #[trigger] key_of(t2[b])) by {
                assert(key_of(t2[a]) == key_of(s2[a + 1]));
                assert(key_of(t2[b]) == key_of(s2[b + 1]));
            }
        }
        lemma_balances_map_index(t1);
        lemma_balances_map_index(t2);
        assert(!balances_map(t1).contains_key(k1)) by {
            if balances_map(t1).contains_key(k1) {
                let a = choose|a: int| 0 <= a < t1.len() && key_of(t1[a]) == k1;
                assert(key_of(s1[a + 1]) == k1);
                assert(key_lt(key_of(s1[0]), key_of(s1[a + 1])));
                lemma_key_lt_irreflexive(k1);
            }
        }
        assert(!balances_map(t2).contains_key(k1)) by {
            if balances_map(t2).contains_key(k1) {
                let a = choose|a: int| 0 <= a < t2.len() && key_of(t2[a]) == k1;
                assert(key_of(s2[a + 1]) == k1);
                assert(key_lt(key_of(s2[0]), key_of(s2[a + 1])));
                lemma_key_lt_irreflexive(k1);
            }
        }
        assert(balances_map(t1) =~= balances_map(s1).remove(k1));
        assert(balances_map(t2) =~= balances_map(s2).remove(k1));
        lemma_sorted_balances_canonical(t1, t2);
        assert(s1 =~= s2) by {
            assert forall|a: int| 0 <= a < s1.len() implies s1[a] == s2[a] by {
                if a > 0 {
                    assert(s1[a] == t1[a - 1]);
                    assert(s2[a] == t2[a - 1]);
                }
            }
        }
    }
}

proof fn lemma_sorted_tail_facts(s: Seq<BalanceView>)
    requires
        sorted_balances(s),
    ensures
        forall|i: int, j: int| 0 <= i < s.len() && 0 <= j < s.len() && key_of(s[i]) == key_of(s[j]) ==> i == j,
{
    assert forall|i: int, j: int| 0 <= i < s.len() && 0 <= j < s.len() && key_of(s[i]) == key_of(s[j]) implies i == j by {
        if i < j {
            assert(key_lt(key_of(s[i]), key_of(s[j])));
            lemma_key_lt_irreflexive(key_of(s[i]));
        } else if j < i {
            assert(key_lt(key_of(s[j]), key_of(s[i])));
            lemma_key_lt_irreflexive(key_of(s[i]));
        }
    }
}

/// Replacing the amount at a position keeps the order and updates that key.
pub proof fn lemma_balances_update(s: Seq<BalanceView>, i: int, e: BalanceView)
    requires
        sorted_balances(s),
        0 <= i < s.len(),
        key_of(e) == key_of(s[i]),
    ensures
        sorted_balances(s.update(i, e)),
        balances_map(s.update(i, e)) == balances_map(s).insert(key_of(e), e.2),
{
    let t = s.update(i, e);
    assert(sorted_balances(t)) by {
        assert forall|a: int, b: int| 0 <= a < b < t.len() implies key_lt(#[trigger] key_of(t[a]), #[trigger] key_of(t[b])) by {
            assert(key_of(t[a]) == key_of(s[a]));
            assert(key_of(t[b]) == key_of(s[b]));
        }
    }
    lemma_balances_map_index(s);
    lemma_balances_map_index(t);
    lemma_sorted_tail_facts(s);
    let m = balances_map(s).insert(key_of(e), e.2);
    assert forall|k: BalanceKey| #[trigger] balances_map(t).contains_key(k) <==> m.contains_key(k) by {
        if balances_map(t).contains_key(k) {
            let j = choose|j: int| 0 <= j < t.len() && key_of(t[j]) == k;
            assert(key_of(s[j]) == k);
        }
        if balances_map(s).contains_key(k) {
            let j = choose|j: int| 0 <= j < s.len() && key_of(s[j]) == k;
            assert(key_of(t[j]) == k);
        }
        if k == key_of(e) {
            assert(key_of(t[i]) == k);
        }
    }
    assert forall|k: BalanceKey| #[trigger] balances_map(t).contains_key(k) implies balances_map(t)[k] == m[k] by {
        let j = choose|j: int| 0 <= j < t.len() && key_of(t[j]) == k;
        if j != i {
            assert(key_of(s[j]) == k);
            assert(t[j] == s[j]);
        }
    }
    assert(balances_map(t) =~= m);
}

/// Inserting a balance at its place in key order keeps the order and adds that key.
pub proof fn lemma_balances_insert(s: Seq<BalanceView>, idx: int, e: BalanceView)
    requires
        sorted_balances(s),
        0 <= idx <= s.len(),
        forall|j: int| 0 <= j < idx ==> key_lt(#[trigger] key_of(s[j]), key_of(e)),
        forall|j: int| idx <= j < s.len() ==> key_lt(key_of(e), #[trigger] key_of(s[j])),
    ensures
        sorted_balances(s.insert(idx, e)),
        balances_map(s.insert(idx, e)) == balances_map(s).insert(key_of(e), e.2),
        !balances_map(s).contains_key(key_of(e)),
{
    let t = s.insert(idx, e);
    assert(sorted_balances(t)) by {
        assert forall|a: int, b: int| 0 <= a < b < t.len() implies key_lt(#[trigger] key_of(t[a]), #[trigger] key_of(t[b])) by {
            if b < idx {
                assert(t[a] == s[a] && t[b] == s[b]);
            } else if b == idx {
                assert(t[a] == s[a]);
            } else if a == idx {
                assert(t[b] == s[b - 1]);
            } else if a < idx {
                assert(t[a] == s[a] && t[b] == s[b - 1]);
                lemma_key_lt_transitive(key_of(s[a]), key_of(e), key_of(s[b - 1]));
            } else {
                assert(t[a] == s[a - 1] && t[b] == s[b - 1]);
            }
        }
    }
    lemma_balances_map_index(s);
    lemma_balances_map_index(t);
    assert(!balances_map(s).contains_key(key_of(e))) by {
        if balances_map(s).contains_key(key_of(e)) {
            let j = choose|j: int| 0 <= j < s.len() && key_of(s[j]) == key_of(e);
            lemma_key_lt_irreflexive(key_of(e));
        }
    }
    let m = balances_map(s).insert(key_of(e), e.2);
    assert forall|k: BalanceKey| #[trigger] balances_map(t).contains_key(k) <==> m.contains_key(k) by {
        if balances_map(t).contains_key(k) {
            let j = choose|j: int| 0 <= j < t.len() && key_of(t[j]) == k;
            if j < idx {
                assert(t[j] == s[j]);
            } else if j > idx {
                assert(t[j] == s[j - 1]);
            }
        }
        if balances_map(s).contains_key(k) {
            let j = choose|j: int| 0 <= j < s.len() && key_of(s[j]) == k;
            if j < idx {
                assert(t[j] == s[j]);
            } else {
                assert(t[j + 1] == s[j]);
            }
        }
        if k == key_of(e) {
            assert(t[idx] == e);
        }
    }
    assert forall|k: BalanceKey| #[trigger] balances_map(t).contains_key(k) implies balances_map(t)[k] == m[k] by {
        let j = choose|j: int| 0 <= j < t.len() && key_of(t[j]) == k;
        if j < idx {
            assert(t[j] == s[j]);
            assert(k != key_of(e));
        } else if j > idx {
            assert(t[j] == s[j - 1]);
            assert(k != key_of(e));
        }
    }
    assert(balances_map(t) =~= m);
}


/// The state root is determined by the balances held: two ledgers holding
/// the same balances have the same root, however they were built.
pub proof fn lemma_root_follows_balances(s1: Seq<BalanceView>, s2: Seq<BalanceView>)
    requires
        sorted_balances(s1),
        sorted_balances(s2),
        balances_map(s1) == balances_map(s2),
    ensures
        ledger_root(s1) == ledger_root(s2),
{
    lemma_sorted_balances_canonical(s1, s2);
}

proof fn lemma_sum_concat(a: Seq<BalanceView>, b: Seq<BalanceView>)
    ensures
        sum_amounts(a + b) == sum_amounts(a) + sum_amounts(b),
    decreases b.len(),
{
    if b.len() == 0 {
        assert(a + b =~= a);
    } else {
        lemma_sum_concat(a, b.drop_last());
        assert((a + b).drop_last() =~= a + b.drop_last());
    }
}

/// Replacing one balance changes the sum by the difference of the amounts.
pub proof fn lemma_sum_update(s: Seq<BalanceView>, i: int, e: BalanceView)
    requires
        0 <= i < s.len(),
    ensures
        sum_amounts(s.update(i, e)) == sum_amounts(s) - s[i].2 + e.2,
{
    let pre = s.take(i);
    let post = s.skip(i + 1);
    assert(s =~= pre + seq![s[i]] + post);
    assert(s.update(i, e) =~= pre + seq![e] + post);
    lemma_sum_concat(pre + seq![s[i]], post);
    lemma_sum_concat(pre, seq![s[i]]);
    lemma_sum_concat(pre + seq![e], post);
    lemma_sum_concat(pre, seq![e]);
    assert(seq![e].drop_last() =~= Seq::<BalanceView>::empty());
    assert(seq![s[i]].drop_last() =~= Seq::<BalanceView>::empty());
}

/// Inserting one balance adds its amount to the sum.
pub proof fn lemma_sum_insert(s: Seq<BalanceView>, i: int, e: BalanceView)
    requires
        0 <= i <= s.len(),
    ensures
        sum_amounts(s.insert(i, e)) == sum_amounts(s) + e.2,
{
    let pre = s.take(i);
    let post = s.skip(i);
    assert(s =~= pre + post);
    assert(s.insert(i, e) =~= pre + seq![e] + post);
    lemma_sum_concat(pre, post);
    lemma_sum_concat(pre + seq![e], post);
    lemma_sum_concat(pre, seq![e]);
    assert(seq![e].drop_last() =~= Seq::<BalanceView>::empty());
    assert(sum_amounts(Seq::<BalanceView>::empty()) == 0);
    assert(seq![e].last() == e);
    assert(sum_amounts(seq![e]) == e.2);
}

/// The sum of the amounts held in `asset`, over all traders.
pub open spec fn asset_total(s: Seq<BalanceView>, asset: Seq<char>) -> int
    decreases s.len(),
{
    if s.len() == 0 {
        0
    } else {
        asset_total(s.drop_last(), asset) + if s.last().1 == asset { s.last().2 as int } else { 0 }
    }
}

proof fn lemma_asset_total_concat(a: Seq<BalanceView>, b: Seq<BalanceView>, asset: Seq<char>)
    ensures
        asset_total(a + b, asset) == asset_total(a, asset) + asset_total(b, asset),
    decreases b.len(),
{
    if b.len() == 0 {
        assert(a + b =~= a);
    } else {
        lemma_asset_total_concat(a, b.drop_last(), asset);
        assert((a + b).drop_last() =~= a + b.drop_last());
    }
}

proof fn lemma_asset_total_single(e: BalanceView, asset: Seq<char>)
    ensures
        asset_total(seq![e], asset) == if e.1 == asset { e.2 as int } else { 0 },
{
    assert(seq![e].drop_last() =~= Seq::<BalanceView>::empty());
    assert(asset_total(Seq::<BalanceView>::empty(), asset) == 0);
    assert(seq![e].last() == e);
}

/// Replacing one balance changes each asset's total by the difference.
pub proof fn lemma_asset_total_update(s: Seq<BalanceView>, i: int, e: BalanceView)
    requires
        0 <= i < s.len(),
        e.1 == s[i].1,
    ensures
        forall|a: Seq<char>| #[trigger] asset_total(s.update(i, e), a) == asset_total(s, a) + if a == e.1 {
            e.2 - s[i].2
        } else {
            0
        },
{
    let pre = s.take(i);
    let post = s.skip(i + 1);
    assert(s =~= pre + seq![s[i]] + post);
    assert(s.update(i, e) =~= pre + seq![e] + post);
    assert forall|a: Seq<char>| #[trigger] asset_total(s.update(i, e), a) == asset_total(s, a) + if a == e.1 {
        e.2 - s[i].2
    } else {
        0
    } by {
        lemma_asset_total_concat(pre + seq![s[i]], post, a);
        lemma_asset_total_concat(pre, seq![s[i]], a);
        lemma_asset_total_concat(pre + seq![e], post, a);
        lemma_asset_total_concat(pre, seq![e], a);
        lemma_asset_total_single(e, a);
        lemma_asset_total_single(s[i], a);
    }
}

/// Inserting one balance adds its amount to its asset's total.
pub proof fn lemma_asset_total_insert(s: Seq<BalanceView>, i: int, e: BalanceView)
    requires
        0 <= i <= s.len(),
    ensures
        forall|a: Seq<char>| #[trigger] asset_total(s.insert(i, e), a) == asset_total(s, a) + if a == e.1 {
            e.2 as int
        } else {
            0
        },
{
    let pre = s.take(i);
    let post = s.skip(i);
    assert(s =~= pre + post);
    assert(s.insert(i, e) =~= pre + seq![e] + post);
    assert forall|a: Seq<char>| #[trigger] asset_total(s.insert(i, e), a) == asset_total(s, a) + if a == e.1 {
        e.2 as int
    } else {
        0
    } by {
        lemma_asset_total_concat(pre, post, a);
        lemma_asset_total_concat(pre + seq![e], post, a);
        lemma_asset_total_concat(pre, seq![e], a);
        lemma_asset_total_single(e, a);
    }
}

/// An asset that no balance is held in totals 0.
pub proof fn lemma_asset_total_absent(s: Seq<BalanceView>, asset: Seq<char>)
    requires
        forall|i: int| 0 <= i < s.len() ==> #[trigger] s[i].1 != asset,
    ensures
        asset_total(s, asset) == 0,
    decreases s.len(),
{
    if s.len() > 0 {
        let t = s.drop_last();
        assert forall|i: int| 0 <= i < t.len() implies #[trigger] t[i].1 != asset by {
            assert(t[i] == s[i]);
        }
        lemma_asset_total_absent(t, asset);
    }
}

/// A ledger of balances, at most one per (trader, asset).
#[derive(Debug)]
pub struct Ledger {
    entries: Vec<Balance>,
}

impl View for Ledger {
    type V = Seq<BalanceView>;

    closed spec fn view(&self) -> Seq<BalanceView> {
        self.entries@.map_values(|b: Balance| b@)
    }
}

impl Ledger {
    #[verifier::type_invariant]
    spec fn well_formed(self) -> bool {
        sorted_balances(self@)
    }

    /// The balances held, by key.
    pub open spec fn spec_map(&self) -> Map<BalanceKey, i64> {
        balances_map(self@)
    }

    /// An empty ledger.
    pub fn new() -> (l: Ledger)
        ensures
            l@ == Seq::<BalanceView>::empty(),
            l.spec_map() == Map::<BalanceKey, i64>::empty(),
            sorted_balances(l@),
    {
        let l = Ledger { entries: Vec::new() };
        assert(l@ =~= Seq::<BalanceView>::empty());
        l
    }

    /// Number of balances held.
    pub fn len(&self) -> (n: usize)
        ensures
            n == self@.len(),
    {
        self.entries.len()
    }

    /// The balances, in key order.
    pub fn entries(&self) -> (es: &Vec<Balance>)
        ensures
            es@.map_values(|b: Balance| b@) == self@,
            sorted_balances(self@),
    {
        proof {
            use_type_invariant(self);
        }
        &self.entries
    }

    /// Where (trader, asset) is, or would go, in key order.
    fn locate(&self, trader: u64, asset: &str) -> (r: (usize, bool))
        ensures
            r.0 <= self@.len(),
            forall|j: int| 0 <= j < r.0 ==> key_lt(#[trigger] key_of(self@[j]), (trader, asset@)),
            r.1 ==> r.0 < self@.len() && key_of(self@[r.0 as int]) == (trader, asset@),
            !r.1 ==> forall|j: int| r.0 <= j < self@.len() ==> key_lt((trader, asset@), #[trigger] key_of(self@[j])),
    {
        proof {
            use_type_invariant(self);
        }
        let key_bytes = asset.as_bytes();
        let n = self.entries.len();
        let mut i: usize = 0;
        while i < n
            invariant
                n == self@.len(),
                i <= n,
                key_bytes@ == encode_utf8(asset@),
                sorted_balances(self@),
                forall|j: int| 0 <= j < i ==> key_lt(#[trigger] key_of(self@[j]), (trader, asset@)),
            decreases n - i,
        {
            let entry = &self.entries[i];
            assert(entry@ == self@[i as int]);
            if entry.trader < trader {
                i = i + 1;
            } else if entry.trader > trader {
                proof {
                    assert forall|j: int| i <= j < self@.len() implies key_lt((trader, asset@), #[trigger] key_of(self@[j])) by {
                        if j > i {
                            assert(key_lt(key_of(self@[i as int]), key_of(self@[j])));
                            lemma_key_lt_transitive((trader, asset@), key_of(self@[i as int]), key_of(self@[j]));
                        }
                    }
                }
                return (i, false);
            } else {
                let entry_bytes = entry.asset.as_str().as_bytes();
                match order_bytes(entry_bytes, key_bytes) {
                    KeyOrder::Before => {
                        i = i + 1;
                    },
                    KeyOrder::Same => {
                        proof {
                            lemma_encode_injective(entry.asset@, asset@);
                        }
                        return (i, true);
                    },
                    KeyOrder::After => {
                        proof {
                            assert forall|j: int| i <= j < self@.len() implies key_lt((trader, asset@), #[trigger] key_of(self@[j])) by {
                                if j > i {
                                    assert(key_lt(key_of(self@[i as int]), key_of(self@[j])));
                                    lemma_key_lt_transitive((trader, asset@), key_of(self@[i as int]), key_of(self@[j]));
                                }
                            }
                        }
                        return (i, false);
                    },
                }
            }
        }
        (i, false)
    }

    /// The amount held for (trader, asset), if any.
    pub fn get(&self, trader: u64, asset: &str) -> (r: Option<i64>)
        ensures
            r == (if self.spec_map().contains_key((trader, asset@)) {
                Some(self.spec_map()[(trader, asset@)])
            } else {
                None
            }),
    {
        proof {
            use_type_invariant(self);
            lemma_balances_map_index(self@);
        }
        let (pos, found) = self.locate(trader, asset);
        if found {
            let amount = self.entries[pos].amount;
            assert(self@[pos as int].2 == amount);
            Some(amount)
        } else {
            proof {
                if self.spec_map().contains_key((trader, asset@)) {
                    let j = choose|j: int| 0 <= j < self@.len() && key_of(self@[j]) == (trader, asset@);
                    if j < pos {
                        lemma_key_lt_irreflexive((trader, asset@));
                    } else {
                        lemma_key_lt_irreflexive((trader, asset@));
                    }
                }
            }
            None
        }
    }

    /// Sets the amount for (trader, asset), returning the amount it replaced.
    pub fn insert(&mut self, trader: u64, asset: String, amount: i64) -> (prev: Option<i64>)
        ensures
            final(self).spec_map() == old(self).spec_map().insert((trader, asset@), amount),
            sorted_balances(final(self)@),
            sum_amounts(final(self)@) == sum_amounts(old(self)@) - amount_or_zero(old(self).spec_map(), (trader, asset@)) + amount,
            forall|a: Seq<char>| #[trigger] asset_total(final(self)@, a) == asset_total(old(self)@, a) + if a == asset@ {
                amount - amount_or_zero(old(self).spec_map(), (trader, asset@))
            } else {
                0
            },
            prev == (if old(self).spec_map().contains_key((trader, asset@)) {
                Some(old(self).spec_map()[(trader, asset@)])
            } else {
                None
            }),
    {
        proof {
            use_type_invariant(&*self);
        }
        let prev = self.get(trader, asset.as_str());
        let (pos, found) = self.locate(trader, asset.as_str());
        let mut entries: Vec<Balance> = Vec::new();
        std::mem::swap(&mut entries, &mut self.entries);
        let ghost s = entries@.map_values(|b: Balance| b@);
        let ghost e: BalanceView = (trader, asset@, amount);
        if found {
            let _old_entry = entries.remove(pos);
            entries.insert(pos, Balance { trader, asset, amount });
            proof {
                lemma_balances_update(s, pos as int, e);
                lemma_sum_update(s, pos as int, e);
                lemma_asset_total_update(s, pos as int, e);
                lemma_balances_map_index(s);
                assert(entries@.map_values(|b: Balance| b@) =~= s.update(pos as int, e));
            }
        } else {
            entries.insert(pos, Balance { trader, asset, amount });
            proof {
                lemma_balances_insert(s, pos as int, e);
                lemma_sum_insert(s, pos as int, e);
                lemma_asset_total_insert(s, pos as int, e);
                assert(entries@.map_values(|b: Balance| b@) =~= s.insert(pos as int, e));
            }
        }
        self.entries = entries;
        prev
    }

    /// Adds `delta` to the amount held for (trader, asset), starting from 0
    /// where there is none.
    pub fn credit(&mut self, trader: u64, asset: &str, delta: i64)
        requires
            i64::MIN <= amount_or_zero(old(self).spec_map(), (trader, asset@)) + delta <= i64::MAX,
        ensures
            final(self).spec_map() == old(self).spec_map().insert(
                (trader, asset@),
                (amount_or_zero(old(self).spec_map(), (trader, asset@)) + delta) as i64,
            ),
            sorted_balances(final(self)@),
            sum_amounts(final(self)@) == sum_amounts(old(self)@) + delta,
            forall|a: Seq<char>| #[trigger] asset_total(final(self)@, a) == asset_total(old(self)@, a) + if a == asset@ {
                delta as int
            } else {
                0
            },
    {
        let current = match self.get(trader, asset) {
            Some(v) => v,
            None => 0,
        };
        let _ = self.insert(trader, asset.to_owned(), current + delta);
    }

    /// The sum of all amounts, exactly.
    pub fn total(&self) -> (sum: i128)
        ensures
            sum == sum_amounts(self@),
    {
        let n = self.entries.len();
        let mut acc: i128 = 0;
        let mut i: usize = 0;
        while i < n
            invariant
                n == self@.len(),
                i <= n,
                acc == sum_amounts(self@.subrange(0, i as int)),
                -(i as int) * 0x8000_0000_0000_0000 <= acc <= (i as int) * 0x8000_0000_0000_0000,
            decreases n - i,
        {
            let amount = self.entries[i].amount;
            assert(self@.subrange(0, i + 1).drop_last() == self@.subrange(0, i as int));
            assert(self@[i as int].2 == amount);
            acc = acc + amount as i128;
            i = i + 1;
        }
        assert(self@.subrange(0, n as int) == self@);
        acc
    }

    /// The sum of the amounts held in `asset`, exactly.
    pub fn asset_total(&self, asset: &str) -> (sum: i128)
        ensures
            sum == asset_total(self@, asset@),
    {
        let key_bytes = asset.as_bytes();
        let n = self.entries.len();
        let mut acc: i128 = 0;
        let mut i: usize = 0;
        while i < n
            invariant
                n == self@.len(),
                i <= n,
                key_bytes@ == encode_utf8(asset@),
                acc == asset_total(self@.subrange(0, i as int), asset@),
                -(i as int) * 0x8000_0000_0000_0000 <= acc <= (i as int) * 0x8000_0000_0000_0000,
            decreases n - i,
        {
            let entry = &self.entries[i];
            assert(self@[i as int] == entry@);
            assert(self@.subrange(0, i + 1).drop_last() == self@.subrange(0, i as int));
            assert(self@.subrange(0, i + 1).last() == entry@);
            match order_bytes(entry.asset.as_str().as_bytes(), key_bytes) {
                KeyOrder::Same => {
                    proof {
                        lemma_encode_injective(entry.asset@, asset@);
                    }
                    acc = acc + entry.amount as i128;
                },
                KeyOrder::Before => {
                    proof {
                        lemma_bytes_lt_irreflexive(key_bytes@);
                    }
                },
                KeyOrder::After => {
                    proof {
                        lemma_bytes_lt_irreflexive(key_bytes@);
                    }
                },
            }
            i = i + 1;
        }
        assert(self@.subrange(0, n as int) == self@);
        acc
    }

    /// Whether every asset totals the same here as in `other`.
    pub fn same_asset_totals(&self, other: &Ledger) -> (same: bool)
        ensures
            same == (forall|a: Seq<char>| #[trigger] asset_total(self@, a) == asset_total(other@, a)),
    {
        let n = self.entries.len();
        let mut i: usize = 0;
        while i < n
            invariant
                n == self@.len(),
                i <= n,
                forall|j: int| 0 <= j < i ==> asset_total(self@, #[trigger] self@[j].1) == asset_total(other@, self@[j].1),
            decreases n - i,
        {
            let asset = self.entries[i].asset.as_str();
            assert(self@[i as int].1 == asset@);
            if self.asset_total(asset) != other.asset_total(asset) {
                return false;
            }
            i = i + 1;
        }
        let m = other.entries.len();
        let mut k: usize = 0;
        while k < m
            invariant
                m == other@.len(),
                k <= m,
                forall|j: int| 0 <= j < n ==> asset_total(self@, #[trigger] self@[j].1) == asset_total(other@, self@[j].1),
                n == self@.len(),
                forall|j: int| 0 <= j < k ==> asset_total(self@, #[trigger] other@[j].1) == asset_total(other@, other@[j].1),
            decreases m - k,
        {
            let asset = other.entries[k].asset.as_str();
            assert(other@[k as int].1 == asset@);
            if self.asset_total(asset) != other.asset_total(asset) {
                return false;
            }
            k = k + 1;
        }
        proof {
            assert forall|a: Seq<char>| #[trigger] asset_total(self@, a) == asset_total(other@, a) by {
                if exists|j: int| 0 <= j < self@.len() && self@[j].1 == a {
                    let j = choose|j: int| 0 <= j < self@.len() && self@[j].1 == a;
                    assert(asset_total(self@, self@[j].1) == asset_total(other@, self@[j].1));
                } else if exists|j: int| 0 <= j < other@.len() && other@[j].1 == a {
                    let j = choose|j: int| 0 <= j < other@.len() && other@[j].1 == a;
                    assert(asset_total(self@, other@[j].1) == asset_total(other@, other@[j].1));
                } else {
                    lemma_asset_total_absent(self@, a);
                    lemma_asset_total_absent(other@, a);
                }
            }
        }
        true
    }

    /// The bytes that the state root hashes (see `root_preimage`).
    pub fn root_preimage(&self) -> (bytes: Vec<u8>)
        ensures
            bytes@ == root_preimage(self@),
    {
        let n = self.entries.len();
        let mut out: Vec<u8> = Vec::new();
        let mut i: usize = 0;
        while i < n
            invariant
                n == self@.len(),
                i <= n,
                out@ == root_preimage(self@.subrange(0, i as int)),
            decreases n - i,
        {
            let entry = &self.entries[i];
            assert(self@[i as int] == entry@);
            let trader_bytes = u64_to_le_bytes(entry.trader);
            append_bytes(&mut out, trader_bytes.as_slice());
            append_bytes(&mut out, entry.asset.as_str().as_bytes());
            let amount_bytes = u64_to_le_bytes(entry.amount as u64);
            append_bytes(&mut out, amount_bytes.as_slice());
            assert(self@.subrange(0, i + 1).drop_last() == self@.subrange(0, i as int));
            assert(self@.subrange(0, i + 1).last() == entry@);
            i = i + 1;
        }
        assert(self@.subrange(0, n as int) == self@);
        out
    }

    /// The state root: the SHA-256 of `root_preimage`.
    pub fn root(&self) -> (root: [u8; 32])
        ensures
            root@ == ledger_root(self@),
    {
        let bytes = self.root_preimage();
        sha256(bytes.as_slice())
    }
}

impl Clone for Ledger {
    fn clone(&self) -> (copy: Ledger)
        ensures
            copy@ == self@,
    {
        proof {
            use_type_invariant(self);
        }
        let n = self.entries.len();
        let mut entries: Vec<Balance> = Vec::new();
        let mut i: usize = 0;
        while i < n
            invariant
                n == self@.len(),
                i <= n,
                entries@.map_values(|b: Balance| b@) == self@.subrange(0, i as int),
            decreases n - i,
        {
            let b = &self.entries[i];
            assert(self@[i as int] == b@);
            let copy = Balance { trader: b.trader, asset: b.asset.clone(), amount: b.amount };
            assert(copy@ == b@);
            let ghost prev = entries@;
            entries.push(copy);
            assert(entries@ == prev.push(copy));
            assert(entries@.map_values(|b: Balance| b@) =~= prev.map_values(|b: Balance| b@).push(copy@));
            assert(self@.subrange(0, i + 1) =~= self@.subrange(0, i as int).push(self@[i as int]));
            i = i + 1;
        }
        assert(self@.subrange(0, n as int) == self@);
        Ledger { entries }
    }
}

} // verus!

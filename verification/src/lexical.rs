//! Lexicographic order on byte strings.
use vstd::prelude::*;

verus! {

/// `a` comes strictly before `b` in lexicographic byte order.
pub open spec fn bytes_lt(a: Seq<u8>, b: Seq<u8>) -> bool {
    exists|i: int|
        #![trigger a.take(i), b.take(i)]
        0 <= i <= a.len() && i <= b.len() && a.take(i) == b.take(i) && ((i == a.len() && i < b.len())
            || (i < a.len() && i < b.len() && a[i] < b[i]))
}

pub proof fn lemma_bytes_lt_irreflexive(a: Seq<u8>)
    ensures
        !bytes_lt(a, a),
{
}

pub proof fn lemma_bytes_lt_transitive(a: Seq<u8>, b: Seq<u8>, c: Seq<u8>)
    requires
        bytes_lt(a, b),
        bytes_lt(b, c),
    ensures
        bytes_lt(a, c),
{
    let i = choose|i: int|
        #![trigger a.take(i), b.take(i)]
        0 <= i <= a.len() && i <= b.len() && a.take(i) == b.take(i) && ((i == a.len() && i < b.len())
            || (i < a.len() && i < b.len() && a[i] < b[i]));
    let j = choose|j: int|
        #![trigger b.take(j), c.take(j)]
        0 <= j <= b.len() && j <= c.len() && b.take(j) == c.take(j) && ((j == b.len() && j < c.len())
            || (j < b.len() && j < c.len() && b[j] < c[j]));
    let m = if i <= j { i } else { j };
    assert(a.take(m) =~= c.take(m)) by {
        assert forall|k: int| 0 <= k < m implies a[k] == c[k] by {
            assert(a.take(i)[k] == b.take(i)[k]);
            assert(b.take(j)[k] == c.take(j)[k]);
        }
    }
    if i < j {
        assert(b.take(j)[i] == c.take(j)[i]);
    } else if j < i {
        assert(a.take(i)[j] == b.take(i)[j]);
    }
}

pub proof fn lemma_bytes_lt_asymmetric(a: Seq<u8>, b: Seq<u8>)
    requires
        bytes_lt(a, b),
    ensures
        !bytes_lt(b, a),
{
    if bytes_lt(b, a) {
        lemma_bytes_lt_transitive(a, b, a);
    }
}


proof fn lemma_bytes_trichotomy_from(a: Seq<u8>, b: Seq<u8>, k: int)
    requires
        0 <= k <= a.len(),
        k <= b.len(),
        a.take(k) == b.take(k),
        a != b,
    ensures
        bytes_lt(a, b) || bytes_lt(b, a),
    decreases a.len() - k,
{
    if k == a.len() && k == b.len() {
        assert(a =~= a.take(k));
        assert(b =~= b.take(k));
    } else if k == a.len() {
        assert(a.take(k) == b.take(k));
    } else if k == b.len() {
        assert(b.take(k) == a.take(k));
    } else if a[k] != b[k] {
        assert(a.take(k) == b.take(k));
        assert(b.take(k) == a.take(k));
    } else {
        assert(a.take(k + 1) =~= a.take(k).push(a[k]));
        assert(b.take(k + 1) =~= b.take(k).push(b[k]));
        lemma_bytes_trichotomy_from(a, b, k + 1);
    }
}

/// Two different byte strings are ordered one way or the other.
pub proof fn lemma_bytes_lt_total(a: Seq<u8>, b: Seq<u8>)
    requires
        a != b,
    ensures
        bytes_lt(a, b) || bytes_lt(b, a),
{
    assert(a.take(0) =~= b.take(0));
    lemma_bytes_trichotomy_from(a, b, 0);
}

/// Which way two keys go.
pub enum KeyOrder {
    Before,
    Same,
    After,
}

/// Lexicographic order of two byte strings.
pub fn order_bytes(a: &[u8], b: &[u8]) -> (r: KeyOrder)
    ensures
        r is Before ==> bytes_lt(a@, b@),
        r is Same ==> a@ == b@,
        r is After ==> bytes_lt(b@, a@),
{
    let mut i: usize = 0;
    while i < a.len() && i < b.len() && a[i] == b[i]
        invariant
            i <= a@.len(),
            i <= b@.len(),
            a@.take(i as int) == b@.take(i as int),
        decreases a@.len() - i,
    {
        assert(a@.take(i + 1) == a@.take(i as int).push(a@[i as int]));
        assert(b@.take(i + 1) == b@.take(i as int).push(b@[i as int]));
        i = i + 1;
    }
    if i == a.len() && i == b.len() {
        assert(a@ =~= a@.take(i as int));
        assert(b@ =~= b@.take(i as int));
        KeyOrder::Same
    } else if i == a.len() {
        assert(a@.take(i as int) == b@.take(i as int));
        KeyOrder::Before
    } else if i == b.len() {
        assert(b@.take(i as int) == a@.take(i as int));
        KeyOrder::After
    } else if a[i] < b[i] {
        assert(a@.take(i as int) == b@.take(i as int));
        KeyOrder::Before
    } else {
        assert(b@.take(i as int) == a@.take(i as int));
        KeyOrder::After
    }
}


} // verus!

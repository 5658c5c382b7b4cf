//! Causal sequencing: every order gets an id derived from the previous
//! window's root, its position in the window and its content, and a batch
//! is executed in one canonical order whatever order it arrived in.
use vstd::prelude::*;
use vstd::bytes::*;
use crate::digest::{append_bytes, sha256, spec_sha256};
use crate::lexical::{
    bytes_lt, lemma_bytes_lt_asymmetric, lemma_bytes_lt_irreflexive, lemma_bytes_lt_total,
    lemma_bytes_lt_transitive, order_bytes, KeyOrder,
};
use crate::{OpPayload, OrderedOp, compute_content_hash, payload_encoding};

verus! {

/// Where causal ids come from.
#[derive(Debug, Clone, Copy)]
pub enum SequencerMode {
    InternalHash,
    ExternalVRF([u8; 32]),
}

/// The bytes hashed into a causal id: the previous root, the position in
/// the window (u64, little endian) and the content hash.
pub open spec fn causal_preimage(prev_root: Seq<u8>, counter: u64, content_hash: Seq<u8>) -> Seq<u8> {
    prev_root + spec_u64_to_le_bytes(counter) + content_hash
}

/// `a` executes before `b`: lower price first, then lower causal id.
pub open spec fn op_before(a: OrderedOp, b: OrderedOp) -> bool {
    a.price < b.price || (a.price == b.price && bytes_lt(a.causal_id@, b.causal_id@))
}

/// `s` with `x` placed after every element that does not come after it.
pub open spec fn insert_in_order(s: Seq<OrderedOp>, x: OrderedOp) -> Seq<OrderedOp>
    decreases s.len(),
{
    if s.len() == 0 {
        seq![x]
    } else if op_before(x, s.last()) {
        insert_in_order(s.drop_last(), x).push(s.last())
    } else {
        s.push(x)
    }
}

/// The canonical execution order of a batch: ordered by `op_before`,
/// keeping arrival order among operations that neither precedes.
pub open spec fn canonical_order(s: Seq<OrderedOp>) -> Seq<OrderedOp>
    decreases s.len(),
{
    if s.len() == 0 {
        Seq::empty()
    } else {
        insert_in_order(canonical_order(s.drop_last()), s.last())
    }
}

proof fn lemma_insert_in_order_at(p: Seq<OrderedOp>, x: OrderedOp, j: int)
    requires
        0 <= j <= p.len(),
        j == 0 || !op_before(x, p[j - 1]),
        forall|k: int| j <= k < p.len() ==> op_before(x, #[trigger] p[k]),
    ensures
        insert_in_order(p, x) == p.take(j) + seq![x] + p.skip(j),
    decreases p.len(),
{
    if p.len() == j {
        if p.len() == 0 {
            assert(p.take(j) + seq![x] + p.skip(j) =~= seq![x]);
        } else {
            assert(p.last() == p[j - 1]);
            assert(p.take(j) + seq![x] + p.skip(j) =~= p.push(x));
        }
    } else {
        let q = p.drop_last();
        assert(op_before(x, p[p.len() - 1]));
        assert forall|k: int| j <= k < q.len() implies op_before(x, #[trigger] q[k]) by {
            assert(q[k] == p[k]);
        }
        if j > 0 {
            assert(q[j - 1] == p[j - 1]);
        }
        lemma_insert_in_order_at(q, x, j);
        assert((q.take(j) + seq![x] + q.skip(j)).push(p.last()) =~= p.take(j) + seq![x] + p.skip(j));
    }
}


/// `s` is in execution order: no operation precedes one placed before it.
pub open spec fn in_execution_order(s: Seq<OrderedOp>) -> bool {
    forall|i: int, j: int| 0 <= i < j < s.len() ==> !op_before(#[trigger] s[j], #[trigger] s[i])
}

/// The ordering key of an operation: its price and causal id.
pub open spec fn same_key(a: OrderedOp, b: OrderedOp) -> bool {
    a.price == b.price && a.causal_id@ == b.causal_id@
}

proof fn lemma_op_before_total(a: OrderedOp, b: OrderedOp)
    ensures
        op_before(a, b) || op_before(b, a) || same_key(a, b),
{
    if a.price == b.price && a.causal_id@ != b.causal_id@ {
        lemma_bytes_lt_total(a.causal_id@, b.causal_id@);
    }
}

proof fn lemma_op_before_asymmetric(a: OrderedOp, b: OrderedOp)
    requires
        op_before(a, b),
    ensures
        !op_before(b, a),
        !same_key(a, b),
{
    if a.price == b.price {
        lemma_bytes_lt_asymmetric(a.causal_id@, b.causal_id@);
        lemma_bytes_lt_irreflexive(a.causal_id@);
    }
}

proof fn lemma_op_before_transitive(a: OrderedOp, b: OrderedOp, c: OrderedOp)
    requires
        op_before(a, b),
        op_before(b, c),
    ensures
        op_before(a, c),
{
    if a.price == b.price && b.price == c.price {
        lemma_bytes_lt_transitive(a.causal_id@, b.causal_id@, c.causal_id@);
    }
}

/// "Does not precede" is transitive.
proof fn lemma_not_before_transitive(a: OrderedOp, b: OrderedOp, c: OrderedOp)
    requires
        !op_before(a, b),
        !op_before(b, c),
    ensures
        !op_before(a, c),
{
    lemma_op_before_total(a, b);
    lemma_op_before_total(b, c);
    if op_before(a, c) {
        if op_before(b, a) {
            lemma_op_before_transitive(b, a, c);
        } else if same_key(a, b) {
            assert(op_before(b, c)) by {
                assert(a.causal_id@ == b.causal_id@);
            }
        }
    }
}

proof fn lemma_insert_in_order_multiset(p: Seq<OrderedOp>, x: OrderedOp)
    ensures
        insert_in_order(p, x).to_multiset() == p.to_multiset().insert(x),
    decreases p.len(),
{
    broadcast use vstd::seq_lib::group_to_multiset_ensures;
    if p.len() == 0 {
        assert(seq![x] =~= Seq::<OrderedOp>::empty().push(x));
    } else {
        let q = p.drop_last();
        assert(p =~= q.push(p.last()));
        if op_before(x, p.last()) {
            lemma_insert_in_order_multiset(q, x);
            assert(insert_in_order(p, x).to_multiset() =~= p.to_multiset().insert(x));
        }
    }
}

/// The canonical order holds exactly the operations of the batch.
pub proof fn lemma_canonical_order_permutes(s: Seq<OrderedOp>)
    ensures
        canonical_order(s).to_multiset() == s.to_multiset(),
    decreases s.len(),
{
    broadcast use vstd::seq_lib::group_to_multiset_ensures;
    if s.len() > 0 {
        let q = s.drop_last();
        lemma_canonical_order_permutes(q);
        lemma_insert_in_order_multiset(canonical_order(q), s.last());
        assert(s =~= q.push(s.last()));
    }
}

proof fn lemma_insert_in_order_sorted(p: Seq<OrderedOp>, x: OrderedOp)
    requires
        in_execution_order(p),
    ensures
        in_execution_order(insert_in_order(p, x)),
    decreases p.len(),
{
    broadcast use vstd::seq_lib::group_to_multiset_ensures;
    if p.len() == 0 {
    } else if op_before(x, p.last()) {
        let q = p.drop_last();
        assert(in_execution_order(q)) by {
            assert forall|i: int, j: int| 0 <= i < j < q.len() implies !op_before(#[trigger] q[j], #[trigger] q[i]) by {
                assert(q[i] == p[i] && q[j] == p[j]);
            }
        }
        lemma_insert_in_order_sorted(q, x);
        lemma_insert_in_order_multiset(q, x);
        let r = insert_in_order(q, x);
        let last = p.last();
        assert forall|i: int| 0 <= i < r.len() implies !op_before(last, #[trigger] r[i]) by {
            assert(r.to_multiset().count(r[i]) > 0);
            if r[i] == x {
                lemma_op_before_asymmetric(x, last);
            } else {
                assert(q.to_multiset().count(r[i]) > 0);
                assert(q.contains(r[i]));
                let j = choose|j: int| 0 <= j < q.len() && q[j] == r[i];
                assert(p[j] == q[j]);
                assert(!op_before(p[p.len() - 1], p[j]));
            }
        }
        let out = r.push(last);
        assert forall|i: int, j: int| 0 <= i < j < out.len() implies !op_before(#[trigger] out[j], #[trigger] out[i]) by {
            if j < r.len() {
                assert(out[i] == r[i] && out[j] == r[j]);
            } else {
                assert(out[j] == last && out[i] == r[i]);
            }
        }
    } else {
        let out = p.push(x);
        assert forall|i: int, j: int| 0 <= i < j < out.len() implies !op_before(#[trigger] out[j], #[trigger] out[i]) by {
            if j < p.len() {
                assert(out[i] == p[i] && out[j] == p[j]);
            } else {
                assert(out[j] == x && out[i] == p[i]);
                if i < p.len() - 1 {
                    assert(!op_before(p[p.len() - 1], p[i]));
                    lemma_not_before_transitive(x, p[p.len() - 1], p[i]);
                }
            }
        }
    }
}

/// The canonical order is an execution order.
pub proof fn lemma_canonical_order_sorted(s: Seq<OrderedOp>)
    ensures
        in_execution_order(canonical_order(s)),
    decreases s.len(),
{
    if s.len() > 0 {
        lemma_canonical_order_sorted(s.drop_last());
        lemma_insert_in_order_sorted(canonical_order(s.drop_last()), s.last());
    }
}

/// Two execution orders of the same operations are the same sequence, when
/// no two different operations share a price and causal id.
proof fn lemma_execution_order_unique(s1: Seq<OrderedOp>, s2: Seq<OrderedOp>)
    requires
        in_execution_order(s1),
        in_execution_order(s2),
        s1.to_multiset() == s2.to_multiset(),
        forall|a: OrderedOp, b: OrderedOp| s1.contains(a) && s1.contains(b) && same_key(a, b) ==> a == b,
    ensures
        s1 == s2,
    decreases s1.len(),
{
    broadcast use vstd::seq_lib::group_to_multiset_ensures;
    if s1.len() == 0 {
        assert(s2.to_multiset().len() == 0);
        assert(s2.len() == 0);
        assert(s1 =~= s2);
    } else {
        assert(s1.to_multiset().len() == s1.len());
        assert(s2.to_multiset().len() == s2.len());
        assert(s2.len() == s1.len());
        let n = s1.len();
        let a = s1[n - 1];
        let b = s2[n - 1];
        assert(s1.to_multiset().count(a) > 0);
        assert(s2.contains(a));
        let j = choose|j: int| 0 <= j < s2.len() && s2[j] == a;
        assert(s2.to_multiset().count(b) > 0);
        assert(s1.contains(b));
        let i = choose|i: int| 0 <= i < s1.len() && s1[i] == b;
        if j < n - 1 {
            assert(!op_before(s2[n - 1], s2[j]));
        }
        if i < n - 1 {
            assert(!op_before(s1[n - 1], s1[i]));
        }
        lemma_op_before_total(a, b);
        if op_before(a, b) {
            lemma_op_before_asymmetric(a, b);
        } else if op_before(b, a) {
            lemma_op_before_asymmetric(b, a);
        }
        assert(same_key(a, b));
        assert(s1.contains(a));
        assert(a == b);
        let t1 = s1.drop_last();
        let t2 = s2.drop_last();
        assert(s1 =~= t1.push(a));
        assert(s2 =~= t2.push(a));
        assert(t1.to_multiset() =~= s1.to_multiset().remove(a));
        assert(t2.to_multiset() =~= s2.to_multiset().remove(a));
        assert(in_execution_order(t1)) by {
            assert forall|x: int, y: int| 0 <= x < y < t1.len() implies !op_before(#[trigger] t1[y], #[trigger] t1[x]) by {
                assert(t1[x] == s1[x] && t1[y] == s1[y]);
            }
        }
        assert(in_execution_order(t2)) by {
            assert forall|x: int, y: int| 0 <= x < y < t2.len() implies !op_before(#[trigger] t2[y], #[trigger] t2[x]) by {
                assert(t2[x] == s2[x] && t2[y] == s2[y]);
            }
        }
        assert forall|p: OrderedOp, q: OrderedOp| t1.contains(p) && t1.contains(q) && same_key(p, q) implies p == q by {
            let x = choose|x: int| 0 <= x < t1.len() && t1[x] == p;
            let y = choose|y: int| 0 <= y < t1.len() && t1[y] == q;
            assert(s1[x] == p && s1[y] == q);
            assert(s1.contains(p) && s1.contains(q));
        }
        lemma_execution_order_unique(t1, t2);
    }
}

/// Arrival order does not matter: any two arrangements of the same
/// operations are executed in the same order, when no two different
/// operations share a price and causal id.
pub proof fn lemma_canonical_order_deterministic(s1: Seq<OrderedOp>, s2: Seq<OrderedOp>)
    requires
        s1.to_multiset() == s2.to_multiset(),
        forall|a: OrderedOp, b: OrderedOp| s1.contains(a) && s1.contains(b) && same_key(a, b) ==> a == b,
    ensures
        canonical_order(s1) == canonical_order(s2),
{
    broadcast use vstd::seq_lib::group_to_multiset_ensures;
    lemma_canonical_order_permutes(s1);
    lemma_canonical_order_permutes(s2);
    lemma_canonical_order_sorted(s1);
    lemma_canonical_order_sorted(s2);
    let c1 = canonical_order(s1);
    assert forall|a: OrderedOp, b: OrderedOp| c1.contains(a) && c1.contains(b) && same_key(a, b) implies a == b by {
        assert(c1.to_multiset().count(a) > 0);
        assert(c1.to_multiset().count(b) > 0);
        assert(s1.contains(a) && s1.contains(b));
    }
    lemma_execution_order_unique(c1, canonical_order(s2));
}

fn op_before_exec(a: &OrderedOp, b: &OrderedOp) -> (r: bool)
    ensures
        r == op_before(*a, *b),
{
    if a.price != b.price {
        a.price < b.price
    } else {
        match order_bytes(&a.causal_id, &b.causal_id) {
            KeyOrder::Before => true,
            KeyOrder::Same => false,
            KeyOrder::After => {
                proof {
                    lemma_bytes_lt_asymmetric(b.causal_id@, a.causal_id@);
                }
                false
            },
        }
    }
}

/// Assigns causal ids to orders within a window opened by a state root.
#[derive(Debug)]
pub struct Sequencer {
    prev_root: [u8; 32],
    counter: u64,
    mode: SequencerMode,
}

impl Sequencer {
    pub closed spec fn spec_prev_root(&self) -> Seq<u8> {
        self.prev_root@
    }

    pub closed spec fn spec_counter(&self) -> u64 {
        self.counter
    }

    pub closed spec fn spec_mode(&self) -> SequencerMode {
        self.mode
    }

    /// A sequencer for the window opened by `root`, at position 0, hashing internally.
    pub fn new(root: [u8; 32]) -> (s: Sequencer)
        ensures
            s.spec_prev_root() == root@,
            s.spec_counter() == 0,
            s.spec_mode() == SequencerMode::InternalHash,
    {
        Sequencer { prev_root: root, counter: 0, mode: SequencerMode::InternalHash }
    }

    /// The same sequencer with its mode replaced.
    pub fn with_mode(self, mode: SequencerMode) -> (s: Sequencer)
        ensures
            s.spec_prev_root() == self.spec_prev_root(),
            s.spec_counter() == self.spec_counter(),
            s.spec_mode() == mode,
    {
        let mut s = self;
        s.mode = mode;
        s
    }

    /// Sequences an order: its content hash is the SHA-256 of its bincode
    /// encoding, its causal id the SHA-256 of
    /// the window root, its position and that content hash. The position
    /// then moves on by one.
    pub fn assign(&mut self, payload: OpPayload) -> (op: OrderedOp)
        requires
            old(self).spec_counter() < u64::MAX,
        ensures
            op.content_hash@ == spec_sha256(payload_encoding(payload)),
            op.causal_id@ == spec_sha256(
                causal_preimage(old(self).spec_prev_root(), old(self).spec_counter(), op.content_hash@),
            ),
            op.price == payload.price,
            op.payload == payload,
            final(self).spec_counter() == old(self).spec_counter() + 1,
            final(self).spec_prev_root() == old(self).spec_prev_root(),
            final(self).spec_mode() == old(self).spec_mode(),
    {
        let content_hash = compute_content_hash(&payload);
        let mut preimage: Vec<u8> = Vec::new();
        append_bytes(&mut preimage, &self.prev_root);
        let counter_bytes = u64_to_le_bytes(self.counter);
        append_bytes(&mut preimage, counter_bytes.as_slice());
        append_bytes(&mut preimage, &content_hash);
        let causal_id = sha256(preimage.as_slice());
        let ordered = OrderedOp { causal_id, price: payload.price, payload, content_hash };
        self.counter = self.counter + 1;
        ordered
    }

    /// Puts a batch in canonical execution order (see `canonical_order`).
    pub fn sort_canonical(ops: &mut Vec<OrderedOp>)
        ensures
            final(ops)@ == canonical_order(old(ops)@),
            in_execution_order(final(ops)@),
            final(ops)@.to_multiset() == old(ops)@.to_multiset(),
    {
        let ghost orig = ops@;
        let n = ops.len();
        let mut i: usize = 0;
        assert(orig.take(0) =~= Seq::<OrderedOp>::empty());
        assert(ops@ =~= canonical_order(orig.take(0)) + orig.skip(0));
        while i < n
            invariant
                n == orig.len(),
                i <= n,
                ops@.len() == n,
                ops@ == canonical_order(orig.take(i as int)) + orig.skip(i as int),
            decreases n - i,
        {
            let ghost p = canonical_order(orig.take(i as int));
            let ghost x = orig[i as int];
            assert(p.len() == i) by {
                assert(ops@.len() == p.len() + orig.skip(i as int).len());
            }
            let ghost tail = orig.skip(i + 1);
            assert(ops@ =~= p.take(i as int) + seq![x] + p.skip(i as int) + tail);
            let mut j: usize = i;
            while j > 0 && op_before_exec(&ops[j], &ops[j - 1])
                invariant
                    0 <= j <= i < n,
                    p.len() == i,
                    ops@ == p.take(j as int) + seq![x] + p.skip(j as int) + tail,
                    forall|k: int| j <= k < i ==> op_before(x, #[trigger] p[k]),
                decreases j,
            {
                let a = ops[j - 1];
                let b = ops[j];
                assert(a == p[j - 1]);
                assert(b == x);
                ops.set(j - 1, b);
                ops.set(j, a);
                assert(ops@ =~= p.take(j - 1) + seq![x] + p.skip(j - 1) + tail);
                j = j - 1;
            }
            proof {
                if j > 0 {
                    assert(ops@[j as int] == x);
                    assert(ops@[j - 1] == p[j - 1]);
                }
                lemma_insert_in_order_at(p, x, j as int);
                assert(orig.take(i + 1).drop_last() =~= orig.take(i as int));
                assert(orig.take(i + 1).last() == x);
                assert(canonical_order(orig.take(i + 1)) == insert_in_order(p, x));
                assert(ops@ =~= canonical_order(orig.take(i + 1)) + orig.skip(i + 1));
            }
            i = i + 1;
        }
        assert(orig.take(n as int) =~= orig);
        assert(ops@ =~= canonical_order(orig));
        proof {
            lemma_canonical_order_sorted(orig);
            lemma_canonical_order_permutes(orig);
        }
    }

    /// Opens a new window: the given root becomes the previous root and the
    /// position restarts at 0.
    pub fn commit_window(&mut self, new_root: [u8; 32])
        ensures
            final(self).spec_prev_root() == new_root@,
            final(self).spec_counter() == 0,
            final(self).spec_mode() == old(self).spec_mode(),
    {
        self.prev_root = new_root;
        self.counter = 0;
    }

    /// The position within the current window.
    pub fn counter(&self) -> (c: u64)
        ensures
            c == self.spec_counter(),
    {
        self.counter
    }

    pub fn set_counter(&mut self, k: u64)
        ensures
            final(self).spec_counter() == k,
            final(self).spec_prev_root() == old(self).spec_prev_root(),
            final(self).spec_mode() == old(self).spec_mode(),
    {
        self.counter = k;
    }
}

} // verus!

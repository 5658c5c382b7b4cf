//! The write-ahead log: its record format, recovery from a possibly torn
//! log, and the manager that stages committed batches for persistence.
//!
//! A batch is written as one frame per operation followed by a single
//! barrier word. A frame is the payload length (u32, little endian), the
//! payload, and the CRC-32 of the payload (u32, little endian).
use vstd::prelude::*;
use vstd::bytes::*;
use crate::digest::{spec_crc32, spec_sha256, crc32, sha256, append_bytes};
use crate::{OrderedOp, State, encode_op, op_encoding};

verus! {

/// The word written after the last frame of every committed batch.
pub const WAL_BARRIER: u32 = 0xDEAD_BEEF;

/// The little-endian `u32` stored at `at` in `bytes`.
pub open spec fn le_u32_at(bytes: Seq<u8>, at: int) -> u32 {
    spec_u32_from_le_bytes(bytes.subrange(at, at + 4))
}

/// The bytes of one frame carrying `payload`.
pub open spec fn frame_bytes(payload: Seq<u8>) -> Seq<u8> {
    spec_u32_to_le_bytes(payload.len() as u32) + payload + spec_u32_to_le_bytes(spec_crc32(payload))
}

/// The frames of `payloads`, back to back, in order.
pub open spec fn frames_bytes(payloads: Seq<Seq<u8>>) -> Seq<u8>
    decreases payloads.len(),
{
    if payloads.len() == 0 {
        Seq::empty()
    } else {
        frame_bytes(payloads[0]) + frames_bytes(payloads.drop_first())
    }
}

/// The bytes appended to the log when a batch with these payloads commits.
pub open spec fn batch_bytes(payloads: Seq<Seq<u8>>) -> Seq<u8> {
    frames_bytes(payloads) + spec_u32_to_le_bytes(WAL_BARRIER)
}

/// The payloads that recovery reads back from `log`.
///
/// A barrier word closes a batch and is stepped over. Any other word starts
/// a frame: its payload is kept if the frame is complete and its checksum
/// matches. Reading stops at the first frame that is cut short or whose
/// checksum does not match, and at fewer than four trailing bytes.
pub open spec fn recover_payloads(log: Seq<u8>) -> Seq<Seq<u8>>
    decreases log.len(),
{
    if log.len() < 4 {
        Seq::empty()
    } else if le_u32_at(log, 0) == WAL_BARRIER {
        recover_payloads(log.subrange(4, log.len() as int))
    } else {
        let len = le_u32_at(log, 0) as int;
        if log.len() < 8 + len {
            Seq::empty()
        } else {
            let payload = log.subrange(4, 4 + len);
            if le_u32_at(log, 4 + len) != spec_crc32(payload) {
                Seq::empty()
            } else {
                seq![payload] + recover_payloads(log.subrange(8 + len, log.len() as int))
            }
        }
    }
}

/// A payload that the log can carry unambiguously: its length word is
/// never mistaken for the barrier.
pub open spec fn loggable(p: Seq<u8>) -> bool {
    p.len() < WAL_BARRIER
}

/// The log written by committing `batches` in order.
pub open spec fn log_bytes(batches: Seq<Seq<Seq<u8>>>) -> Seq<u8>
    decreases batches.len(),
{
    if batches.len() == 0 {
        Seq::empty()
    } else {
        batch_bytes(batches[0]) + log_bytes(batches.drop_first())
    }
}

/// Every payload of `batches`, in commit order.
pub open spec fn all_payloads(batches: Seq<Seq<Seq<u8>>>) -> Seq<Seq<u8>>
    decreases batches.len(),
{
    if batches.len() == 0 {
        Seq::empty()
    } else {
        batches[0] + all_payloads(batches.drop_first())
    }
}

/// Every payload of every batch can be logged.
pub open spec fn all_loggable(batches: Seq<Seq<Seq<u8>>>) -> bool {
    forall|i: int, j: int| 0 <= i < batches.len() && 0 <= j < batches[i].len() ==> loggable(#[trigger] batches[i][j])
}

/// Reading a frame at the front of `log`: its length word, payload,
/// checksum word, and what follows it.
proof fn lemma_frame_at_front(p: Seq<u8>, tail: Seq<u8>)
    requires
        p.len() <= u32::MAX,
    ensures
        ({
            let log = frame_bytes(p) + tail;
            let len = p.len() as int;
            &&& log.len() == 8 + len + tail.len()
            &&& le_u32_at(log, 0) == p.len()
            &&& log.subrange(4, 4 + len) == p
            &&& le_u32_at(log, 4 + len) == spec_crc32(p)
            &&& log.subrange(8 + len, log.len() as int) == tail
        }),
{
    lemma_auto_spec_u32_to_from_le_bytes();
    let log = frame_bytes(p) + tail;
    let len = p.len() as int;
    let lw = spec_u32_to_le_bytes(p.len() as u32);
    let cw = spec_u32_to_le_bytes(spec_crc32(p));
    assert(log.subrange(0, 4) =~= lw);
    assert(log.subrange(4, 4 + len) =~= p);
    assert(log.subrange(4 + len, 8 + len) =~= cw);
    assert(log.subrange(8 + len, log.len() as int) =~= tail);
}

/// The barrier word at the front of `log`.
proof fn lemma_barrier_at_front(tail: Seq<u8>)
    ensures
        ({
            let log = spec_u32_to_le_bytes(WAL_BARRIER) + tail;
            &&& log.len() == 4 + tail.len()
            &&& le_u32_at(log, 0) == WAL_BARRIER
            &&& log.subrange(4, log.len() as int) == tail
        }),
{
    lemma_auto_spec_u32_to_from_le_bytes();
    let log = spec_u32_to_le_bytes(WAL_BARRIER) + tail;
    assert(log.subrange(0, 4) =~= spec_u32_to_le_bytes(WAL_BARRIER));
    assert(log.subrange(4, log.len() as int) =~= tail);
}

/// Frames written back to back are read back in order, whatever follows.
pub proof fn lemma_recover_frames(ps: Seq<Seq<u8>>, rest: Seq<u8>)
    requires
        forall|i: int| 0 <= i < ps.len() ==> loggable(#[trigger] ps[i]),
    ensures
        recover_payloads(frames_bytes(ps) + rest) == ps + recover_payloads(rest),
    decreases ps.len(),
{
    if ps.len() == 0 {
        assert(frames_bytes(ps) + rest =~= rest);
        assert(ps + recover_payloads(rest) =~= recover_payloads(rest));
    } else {
        let t = ps.drop_first();
        assert forall|i: int| 0 <= i < t.len() implies loggable(#[trigger] t[i]) by {
            assert(t[i] == ps[i + 1]);
        }
        lemma_recover_frames(t, rest);
        let tail = frames_bytes(t) + rest;
        let log = frames_bytes(ps) + rest;
        assert(log =~= frame_bytes(ps[0]) + tail);
        assert(loggable(ps[0]));
        lemma_frame_at_front(ps[0], tail);
        assert(seq![ps[0]] + (t + recover_payloads(rest)) =~= ps + recover_payloads(rest));
    }
}

/// A committed batch is read back whole, and reading goes on after it.
pub proof fn lemma_recover_batch(ps: Seq<Seq<u8>>, rest: Seq<u8>)
    requires
        forall|i: int| 0 <= i < ps.len() ==> loggable(#[trigger] ps[i]),
    ensures
        recover_payloads(batch_bytes(ps) + rest) == ps + recover_payloads(rest),
{
    let barrier = spec_u32_to_le_bytes(WAL_BARRIER);
    assert(batch_bytes(ps) + rest =~= frames_bytes(ps) + (barrier + rest));
    lemma_recover_frames(ps, barrier + rest);
    lemma_barrier_at_front(rest);
}

/// A log of committed batches is read back whole: every payload of every
/// batch, exactly once, in commit order.
pub proof fn lemma_recover_committed_log(batches: Seq<Seq<Seq<u8>>>, rest: Seq<u8>)
    requires
        all_loggable(batches),
    ensures
        recover_payloads(log_bytes(batches) + rest) == all_payloads(batches) + recover_payloads(rest),
    decreases batches.len(),
{
    if batches.len() == 0 {
        assert(log_bytes(batches) + rest =~= rest);
        assert(all_payloads(batches) + recover_payloads(rest) =~= recover_payloads(rest));
    } else {
        let t = batches.drop_first();
        assert(all_loggable(t)) by {
            assert forall|i: int, j: int| 0 <= i < t.len() && 0 <= j < t[i].len() implies loggable(#[trigger] t[i][j]) by {
                assert(t[i] == batches[i + 1]);
            }
        }
        lemma_recover_committed_log(t, rest);
        assert forall|j: int| 0 <= j < batches[0].len() implies loggable(#[trigger] batches[0][j]) by {}
        lemma_recover_batch(batches[0], log_bytes(t) + rest);
        assert(log_bytes(batches) + rest =~= batch_bytes(batches[0]) + (log_bytes(t) + rest));
        assert(batches[0] + (all_payloads(t) + recover_payloads(rest)) =~= all_payloads(batches)
            + recover_payloads(rest));
    }
}

/// A torn write only loses a suffix: whatever recovery reads from a prefix
/// of a log is a prefix of what it reads from the whole log.
pub proof fn lemma_recover_prefix(log: Seq<u8>, k: int)
    requires
        0 <= k <= log.len(),
    ensures
        recover_payloads(log.take(k)).is_prefix_of(recover_payloads(log)),
    decreases log.len(),
{
    let cut = log.take(k);
    if k == log.len() {
        assert(cut =~= log);
    } else if cut.len() < 4 {
    } else {
        assert(cut.subrange(0, 4) =~= log.subrange(0, 4));
        if le_u32_at(log, 0) == WAL_BARRIER {
            let rest = log.subrange(4, log.len() as int);
            assert(cut.subrange(4, cut.len() as int) =~= rest.take(k - 4));
            lemma_recover_prefix(rest, k - 4);
        } else {
            let len = le_u32_at(log, 0) as int;
            if cut.len() < 8 + len {
            } else {
                assert(cut.subrange(4, 4 + len) =~= log.subrange(4, 4 + len));
                assert(cut.subrange(4 + len, 8 + len) =~= log.subrange(4 + len, 8 + len));
                let payload = log.subrange(4, 4 + len);
                if le_u32_at(log, 4 + len) == spec_crc32(payload) {
                    let rest = log.subrange(8 + len, log.len() as int);
                    let cut_rest = cut.subrange(8 + len, cut.len() as int);
                    assert(cut_rest =~= rest.take(k - 8 - len));
                    lemma_recover_prefix(rest, k - 8 - len);
                    let a = recover_payloads(cut_rest);
                    let b = recover_payloads(rest);
                    assert((seq![payload] + a) =~= (seq![payload] + b).take(1 + a.len() as int));
                }
            }
        }
    }
}

/// Crash consistency: a log of committed batches cut anywhere is read back
/// as a prefix of all committed payloads, in commit order; nothing is
/// invented, altered or reordered.
pub proof fn lemma_recover_torn_log(batches: Seq<Seq<Seq<u8>>>, k: int)
    requires
        all_loggable(batches),
        0 <= k <= log_bytes(batches).len(),
    ensures
        recover_payloads(log_bytes(batches).take(k)) == all_payloads(batches).take(
            recover_payloads(log_bytes(batches).take(k)).len() as int,
        ),
        recover_payloads(log_bytes(batches).take(k)).len() <= all_payloads(batches).len(),
{
    let log = log_bytes(batches);
    lemma_recover_committed_log(batches, Seq::empty());
    assert(log + Seq::<u8>::empty() =~= log);
    assert(recover_payloads(Seq::<u8>::empty()) =~= Seq::<Seq<u8>>::empty());
    assert(all_payloads(batches) + Seq::<Seq<u8>>::empty() =~= all_payloads(batches));
    lemma_recover_prefix(log, k);
}

/// A frame whose checksum does not match ends recovery: after the batches
/// committed before it and the frames of its own batch that precede it,
/// nothing more is read back, whatever follows.
pub proof fn lemma_recover_stops_at_corrupt_frame(
    batches: Seq<Seq<Seq<u8>>>,
    before: Seq<Seq<u8>>,
    corrupt: Seq<u8>,
    rest: Seq<u8>,
)
    requires
        all_loggable(batches),
        forall|i: int| 0 <= i < before.len() ==> loggable(#[trigger] before[i]),
        corrupt.len() >= 8,
        le_u32_at(corrupt, 0) != WAL_BARRIER,
        corrupt.len() >= 8 + le_u32_at(corrupt, 0),
        le_u32_at(corrupt, 4 + le_u32_at(corrupt, 0)) != spec_crc32(
            corrupt.subrange(4, 4 + le_u32_at(corrupt, 0)),
        ),
    ensures
        recover_payloads(log_bytes(batches) + frames_bytes(before) + corrupt + rest) == all_payloads(
            batches,
        ) + before,
{
    let x = corrupt + rest;
    let len = le_u32_at(corrupt, 0) as int;
    assert(x.subrange(0, 4) =~= corrupt.subrange(0, 4));
    assert(x.subrange(4, 4 + len) =~= corrupt.subrange(4, 4 + len));
    assert(x.subrange(4 + len, 8 + len) =~= corrupt.subrange(4 + len, 8 + len));
    assert(recover_payloads(x) =~= Seq::<Seq<u8>>::empty());
    lemma_recover_frames(before, x);
    lemma_recover_committed_log(batches, frames_bytes(before) + x);
    assert(log_bytes(batches) + frames_bytes(before) + corrupt + rest =~= log_bytes(batches) + (
    frames_bytes(before) + x));
    assert(before + Seq::<Seq<u8>>::empty() =~= before);
}

/// A fresh vector holding `src[start..end]`.
fn copy_range(src: &[u8], start: usize, end: usize) -> (out: Vec<u8>)
    requires
        start <= end <= src@.len(),
    ensures
        out@ == src@.subrange(start as int, end as int),
{
    let mut out: Vec<u8> = Vec::new();
    let mut i: usize = start;
    while i < end
        invariant
            start <= i <= end <= src@.len(),
            out@ == src@.subrange(start as int, i as int),
        decreases end - i,
    {
        out.push(src[i]);
        assert(src@.subrange(start as int, i + 1) == src@.subrange(start as int, i as int).push(
            src@[i as int],
        ));
        i = i + 1;
    }
    out
}

/// The little-endian `u32` stored at `at` in `src`.
fn read_u32_le(src: &[u8], at: usize) -> (value: u32)
    requires
        at + 4 <= src.len(),
    ensures
        value == le_u32_at(src@, at as int),
{
    let word = copy_range(src, at, at + 4);
    u32_from_le_bytes(word.as_slice())
}

/// Where the hash of a committed batch comes from: the causal ids of its
/// operations, concatenated in batch order.
pub open spec fn causal_ids_bytes(ops: Seq<OrderedOp>) -> Seq<u8>
    decreases ops.len(),
{
    if ops.len() == 0 {
        Seq::empty()
    } else {
        causal_ids_bytes(ops.drop_last()) + ops.last().causal_id@
    }
}

/// The root a batch commits to.
pub open spec fn batch_root(ops: Seq<OrderedOp>) -> Seq<u8> {
    spec_sha256(causal_ids_bytes(ops))
}

/// The payloads a batch of orders is logged with: the encoding of each
/// order, in batch order.
pub open spec fn ops_payloads(ops: Seq<OrderedOp>) -> Seq<Seq<u8>> {
    ops.map_values(|op: OrderedOp| op_encoding(op))
}

/// The bytes appended to the log when a batch of orders commits.
pub open spec fn ops_log_bytes(ops: Seq<OrderedOp>) -> Seq<u8> {
    batch_bytes(ops_payloads(ops))
}

/// The log written by committing batches of orders in turn.
pub open spec fn orders_log(batches: Seq<Seq<OrderedOp>>) -> Seq<u8> {
    log_bytes(batches.map_values(|b: Seq<OrderedOp>| ops_payloads(b)))
}

/// The encoding of every order of `batches`, in commit order.
pub open spec fn orders_payloads(batches: Seq<Seq<OrderedOp>>) -> Seq<Seq<u8>> {
    all_payloads(batches.map_values(|b: Seq<OrderedOp>| ops_payloads(b)))
}

/// A log of committed batches of orders is read back whole: the encoding of
/// every order of every batch, exactly once, in commit order.
pub proof fn lemma_recover_committed_orders(batches: Seq<Seq<OrderedOp>>)
    ensures
        recover_payloads(orders_log(batches)) == orders_payloads(batches),
{
    let enc = batches.map_values(|b: Seq<OrderedOp>| ops_payloads(b));
    assert(all_loggable(enc)) by {
        assert forall|i: int, j: int| 0 <= i < enc.len() && 0 <= j < enc[i].len() implies loggable(
            #[trigger] enc[i][j],
        ) by {
            let op = batches[i][j];
            assert(enc[i][j] == op_encoding(op));
            lemma_op_encoding_len(op);
        }
    }
    lemma_recover_committed_log(enc, Seq::empty());
    assert(orders_log(batches) + Seq::<u8>::empty() =~= orders_log(batches));
    assert(recover_payloads(Seq::<u8>::empty()) =~= Seq::<Seq<u8>>::empty());
    assert(orders_payloads(batches) + Seq::<Seq<u8>>::empty() =~= orders_payloads(batches));
}

/// Every order encodes to 104 bytes.
pub proof fn lemma_op_encoding_len(op: OrderedOp)
    ensures
        op_encoding(op).len() == 104,
{
    lemma_auto_spec_u32_to_from_le_bytes();
    lemma_auto_spec_u64_to_from_le_bytes();
}

/// The log manager. The file itself is written by the caller: the bytes of
/// committed batches wait in `staged` until they are taken for persistence.
pub struct WalManager {
    latest_root: [u8; 32],
    pending_root: Option<[u8; 32]>,
    path: String,
    staged: Vec<Vec<u8>>,
}

impl WalManager {
    pub closed spec fn spec_latest_root(&self) -> Seq<u8> {
        self.latest_root@
    }

    pub closed spec fn spec_path(&self) -> Seq<char> {
        self.path@
    }

    /// The root of the last committed batch, while it is not yet durable.
    pub closed spec fn spec_pending_root(&self) -> Option<Seq<u8>> {
        match self.pending_root {
            Some(r) => Some(r@),
            None => None,
        }
    }

    /// The bytes of the committed batches not yet taken for persistence,
    /// one entry per batch, oldest first.
    pub closed spec fn spec_staged(&self) -> Seq<Seq<u8>> {
        self.staged@.map_values(|bytes: Vec<u8>| bytes@)
    }

    /// A manager for the log at `path`, with the all-zero root and nothing staged.
    pub fn new(path: String) -> (wal: WalManager)
        ensures
            wal.spec_latest_root() == Seq::new(32, |i: int| 0u8),
            wal.spec_path() == path@,
            wal.spec_staged() == Seq::<Seq<u8>>::empty(),
            wal.spec_pending_root() == None::<Seq<u8>>,
    {
        let wal = WalManager { latest_root: [0u8; 32], pending_root: None, path, staged: Vec::new() };
        assert(wal.spec_staged() =~= Seq::<Seq<u8>>::empty());
        assert(wal.latest_root@ =~= Seq::new(32, |i: int| 0u8));
        wal
    }

    /// The path of the log file.
    pub fn path(&self) -> (p: &String)
        ensures
            p@ == self.spec_path(),
    {
        &self.path
    }

    /// Commits a batch: stages the bytes it is logged as (see
    /// `ops_log_bytes`) and returns the hash of its causal ids, in batch
    /// order. The caller appends the staged bytes to the log file; once they
    /// are durable, `mark_durable` makes that root the latest root.
    pub fn commit_batch(&mut self, ops: &[OrderedOp], _state: &State) -> (root: [u8; 32])
        ensures
            root@ == batch_root(ops@),
            final(self).spec_latest_root() == old(self).spec_latest_root(),
            final(self).spec_pending_root() == Some(root@),
            final(self).spec_path() == old(self).spec_path(),
            final(self).spec_staged() == old(self).spec_staged().push(ops_log_bytes(ops@)),
    {
        let mut ids: Vec<u8> = Vec::new();
        let mut payloads: Vec<Vec<u8>> = Vec::new();
        let mut i: usize = 0;
        while i < ops.len()
            invariant
                i <= ops@.len(),
                ids@ == causal_ids_bytes(ops@.subrange(0, i as int)),
                payloads@.map_values(|p: Vec<u8>| p@) == ops_payloads(ops@.subrange(0, i as int)),
            decreases ops@.len() - i,
        {
            let op = ops[i];
            append_bytes(&mut ids, &op.causal_id);
            let ghost before = payloads@;
            payloads.push(encode_op(&op));
            proof {
                let s0 = ops@.subrange(0, i as int);
                let s1 = ops@.subrange(0, i + 1);
                assert(s1.drop_last() == s0);
                assert(before.map_values(|p: Vec<u8>| p@).len() == before.len());
                assert(before.len() == i);
                assert forall|k: int| 0 <= k < i + 1 implies #[trigger] payloads@[k]@ == op_encoding(s1[k]) by {
                    if k < i {
                        assert(payloads@[k] == before[k]);
                        assert(before.map_values(|p: Vec<u8>| p@)[k] == ops_payloads(s0)[k]);
                        assert(s1[k] == s0[k]);
                    }
                }
                assert(payloads@.map_values(|p: Vec<u8>| p@) =~= ops_payloads(s1));
            }
            i = i + 1;
        }
        assert(ops@.subrange(0, ops@.len() as int) == ops@);
        let root = sha256(ids.as_slice());
        let bytes = Self::encode_batch(payloads.as_slice());
        let ghost before = self.spec_staged();
        self.staged.push(bytes);
        self.pending_root = Some(root);
        assert(self.spec_staged() =~= before.push(ops_log_bytes(ops@)));
        root
    }

    /// Hands over the bytes of the staged batches, oldest first, and clears them.
    pub fn take_staged(&mut self) -> (batches: Vec<Vec<u8>>)
        ensures
            batches@.map_values(|bytes: Vec<u8>| bytes@) == old(self).spec_staged(),
            final(self).spec_staged() == Seq::<Seq<u8>>::empty(),
            final(self).spec_latest_root() == old(self).spec_latest_root(),
            final(self).spec_pending_root() == old(self).spec_pending_root(),
            final(self).spec_path() == old(self).spec_path(),
    {
        let mut batches: Vec<Vec<u8>> = Vec::new();
        std::mem::swap(&mut batches, &mut self.staged);
        assert(self.spec_staged() =~= Seq::<Seq<u8>>::empty());
        batches
    }

    pub fn set_latest_root(&mut self, root: [u8; 32])
        ensures
            final(self).spec_latest_root() == root@,
            final(self).spec_pending_root() == old(self).spec_pending_root(),
            final(self).spec_path() == old(self).spec_path(),
            final(self).spec_staged() == old(self).spec_staged(),
    {
        self.latest_root = root;
    }

    /// Records that every batch committed so far is durable: the root of
    /// the last one becomes the latest root.
    pub fn mark_durable(&mut self)
        ensures
            final(self).spec_latest_root() == match old(self).spec_pending_root() {
                Some(r) => r,
                None => old(self).spec_latest_root(),
            },
            final(self).spec_pending_root() == None::<Seq<u8>>,
            final(self).spec_path() == old(self).spec_path(),
            final(self).spec_staged() == old(self).spec_staged(),
    {
        match self.pending_root {
            Some(r) => {
                self.latest_root = r;
            },
            None => {},
        }
        self.pending_root = None;
    }

    pub fn latest_root(&self) -> (root: &[u8; 32])
        ensures
            root@ == self.spec_latest_root(),
    {
        &self.latest_root
    }

    /// The bytes to append to the log for a batch whose operations encode
    /// to `payloads`, in batch order.
    pub fn encode_batch(payloads: &[Vec<u8>]) -> (bytes: Vec<u8>)
        ensures
            bytes@ == batch_bytes(payloads@.map_values(|p: Vec<u8>| p@)),
    {
        let ghost ps = payloads@.map_values(|p: Vec<u8>| p@);
        let mut out: Vec<u8> = Vec::new();
        let mut i: usize = 0;
        assert(ps.subrange(0, ps.len() as int) == ps);
        assert(out@ + frames_bytes(ps) =~= frames_bytes(ps));
        while i < payloads.len()
            invariant
                i <= payloads@.len(),
                ps == payloads@.map_values(|p: Vec<u8>| p@),
                out@ + frames_bytes(ps.subrange(i as int, ps.len() as int)) == frames_bytes(ps),
            decreases payloads@.len() - i,
        {
            let payload = payloads[i].as_slice();
            let len_word = u32_to_le_bytes(payload.len() as u32);
            append_bytes(&mut out, len_word.as_slice());
            append_bytes(&mut out, payload);
            let crc_word = u32_to_le_bytes(crc32(payload));
            append_bytes(&mut out, crc_word.as_slice());
            assert(ps.subrange(i as int, ps.len() as int).drop_first() == ps.subrange(i + 1, ps.len() as int));
            assert(ps.subrange(i as int, ps.len() as int)[0] == payload@);
            i = i + 1;
        }
        assert(ps.subrange(ps.len() as int, ps.len() as int) =~= Seq::<Seq<u8>>::empty());
        assert(ps.subrange(0, ps.len() as int) == ps);
        let barrier = u32_to_le_bytes(WAL_BARRIER);
        append_bytes(&mut out, barrier.as_slice());
        out
    }

    /// The payloads that recovery reads back from the log bytes `log`
    /// (see `recover_payloads`), in log order.
    pub fn recover(log: &[u8]) -> (payloads: Vec<Vec<u8>>)
        ensures
            payloads@.map_values(|p: Vec<u8>| p@) == recover_payloads(log@),
    {
        let mut out: Vec<Vec<u8>> = Vec::new();
        let mut pos: usize = 0;
        let n = log.len();
        assert(log@.subrange(0, n as int) == log@);
        assert(out@.map_values(|p: Vec<u8>| p@) + recover_payloads(log@) =~= recover_payloads(log@));
        loop
            invariant_except_break
                pos <= n,
                n == log@.len(),
                out@.map_values(|p: Vec<u8>| p@) + recover_payloads(log@.subrange(pos as int, n as int))
                    == recover_payloads(log@),
            ensures
                out@.map_values(|p: Vec<u8>| p@) == recover_payloads(log@),
            decreases n - pos,
        {
            let ghost rest = log@.subrange(pos as int, n as int);
            let ghost before = out@.map_values(|p: Vec<u8>| p@);
            if n - pos < 4 {
                assert(recover_payloads(rest) =~= Seq::<Seq<u8>>::empty());
                assert(before + Seq::<Seq<u8>>::empty() =~= before);
                break;
            }
            let word = read_u32_le(log, pos);
            assert(rest.subrange(0, 4) =~= log@.subrange(pos as int, pos + 4));
            if word == WAL_BARRIER {
                assert(rest.subrange(4, rest.len() as int) =~= log@.subrange(pos + 4, n as int));
                pos = pos + 4;
            } else {
                let len = word as usize;
                if n - pos - 4 < len || n - pos - 4 - len < 4 {
                    assert(before + Seq::<Seq<u8>>::empty() =~= before);
                    break;
                }
                let start = pos + 4;
                let crc_at = start + len;
                let payload = copy_range(log, start, crc_at);
                let stored = read_u32_le(log, crc_at);
                assert(rest.subrange(4, 4 + len as int) =~= payload@);
                assert(rest.subrange(4 + len as int, 8 + len as int) =~= log@.subrange(crc_at as int, crc_at + 4));
                if crc32(payload.as_slice()) != stored {
                    assert(before + Seq::<Seq<u8>>::empty() =~= before);
                    break;
                }
                out.push(payload);
                let ghost pushed = out@.map_values(|p: Vec<u8>| p@);
                assert(pushed =~= before.push(payload@));
                pos = crc_at + 4;
                assert(rest.subrange(8 + len as int, rest.len() as int) =~= log@.subrange(pos as int, n as int));
                assert(pushed + recover_payloads(log@.subrange(pos as int, n as int))
                    =~= before + (seq![payload@] + recover_payloads(log@.subrange(pos as int, n as int))));
            }
        }
        out
    }
}

} // verus!

//! A deterministic matching venue: canonical sequencing of orders, a limit
//! order book matched in price-time priority, a crash-consistent
//! write-ahead log format, and a balance ledger whose state root depends
//! only on the balances, whatever order a batch's orders arrived in.
pub mod book;
pub mod config;
pub mod digest;
pub mod engine;
pub mod wal;
pub mod lexical;
pub mod ledger;
pub mod market_data;
pub mod sequencer;
pub mod tie_out;

use vstd::prelude::*;
use vstd::bytes::{spec_u32_to_le_bytes, spec_u64_to_le_bytes};
use crate::book::LimitBook;
use crate::digest::{sha256, spec_sha256};
use crate::ledger::{BalanceView, Ledger, asset_total, ledger_root};

verus! {

/// The side of an order.
#[derive(Debug, Clone, Copy, PartialEq, Eq, Structural)]
pub enum Side {
    Buy,
    Sell,
}

/// How long an order rests on the book.
#[derive(Debug, Clone, Copy, PartialEq, Eq, Structural)]
pub enum OrderType {
    LimitIOC,
    LimitGTC,
    Market,
}

/// An order as submitted by a trader.
#[derive(Debug, Clone, Copy, PartialEq, Eq, Structural)]
pub struct OpPayload {
    pub trader_id: u64,
    pub side: Side,
    pub price: u64,
    pub qty: u64,
    pub order_type: OrderType,
}

/// An order after sequencing: it carries its causal id and content hash.
#[derive(Debug, Clone, Copy, PartialEq, Eq)]
pub struct OrderedOp {
    pub causal_id: [u8; 32],
    pub price: u64,
    pub payload: OpPayload,
    pub content_hash: [u8; 32],
}

/// A fill reported to the parties of a match.
#[derive(Debug, Clone, Copy, PartialEq, Eq)]
pub struct ExecutionReport {
    pub match_id: u64,
    pub maker_id: u64,
    pub taker_id: u64,
    pub price: u64,
    pub qty: u64,
    pub timestamp_ns: u64,
}

/// `std::io::Error`, carried through unread by the library.
#[verifier::external_type_specification]
#[verifier::external_body]
pub struct ExIoError(std::io::Error);

/// Why a batch was refused.
#[derive(Debug)]
pub enum InvariantViolation {
    SortViolation,
    IdempotenceFailure,
    RootMismatch,
    BalanceConservation,
    IoError(std::io::Error),
}

/// The engine's state: balances, the order book and the log of matches.
#[derive(Debug)]
pub struct State {
    pub balances: Ledger,
    pub book: LimitBook,
    pub match_log: Vec<ExecutionReport>,
}

impl State {
    /// An empty state: no balances, an empty book, no matches.
    pub fn new() -> (s: State)
        ensures
            s.balances@ == Seq::<BalanceView>::empty(),
            s.book.is_empty(),
            s.match_log@ == Seq::<ExecutionReport>::empty(),
    {
        State { balances: Ledger::new(), book: LimitBook::new(), match_log: Vec::new() }
    }

    /// The state root: SHA-256 over the balances in key order (see `ledger_root`).
    pub fn merkle_root(&self) -> (root: [u8; 32])
        ensures
            root@ == ledger_root(self.balances@),
    {
        self.balances.root()
    }
}

impl Clone for State {
    fn clone(&self) -> (copy: State)
        ensures
            copy.balances@ == self.balances@,
            copy.book.spec_bids() == self.book.spec_bids(),
            copy.book.spec_asks() == self.book.spec_asks(),
            copy.match_log@ == self.match_log@,
    {
        let mut match_log: Vec<ExecutionReport> = Vec::new();
        let mut i: usize = 0;
        while i < self.match_log.len()
            invariant
                i <= self.match_log@.len(),
                match_log@ == self.match_log@.subrange(0, i as int),
            decreases self.match_log@.len() - i,
        {
            match_log.push(self.match_log[i]);
            assert(match_log@ =~= self.match_log@.subrange(0, i + 1));
            i = i + 1;
        }
        assert(self.match_log@.subrange(0, self.match_log@.len() as int) =~= self.match_log@);
        State { balances: self.balances.clone(), book: self.book.clone(), match_log }
    }
}

impl Default for State {
    fn default() -> (s: State)
        ensures
            s.balances@ == Seq::<BalanceView>::empty(),
            s.book.is_empty(),
            s.match_log@ == Seq::<ExecutionReport>::empty(),
    {
        State::new()
    }
}

/// Checks that balances are conserved: every asset totals, over all
/// traders, what it totalled in `baseline` (the balances before the batch).
pub fn validate_invariants(state: &State, baseline: &Ledger) -> (r: Result<(), InvariantViolation>)
    ensures
        r is Ok <==> (forall|a: Seq<char>| #[trigger] asset_total(state.balances@, a) == asset_total(baseline@, a)),
        r is Err ==> r matches Err(InvariantViolation::BalanceConservation),
{
    if !state.balances.same_asset_totals(baseline) {
        return Err(InvariantViolation::BalanceConservation);
    }
    Ok(())
}

/// The serde variant index of a side (its declaration order).
pub open spec fn side_index(side: Side) -> u32 {
    match side {
        Side::Buy => 0,
        Side::Sell => 1,
    }
}

/// The serde variant index of an order type (its declaration order).
pub open spec fn order_type_index(t: OrderType) -> u32 {
    match t {
        OrderType::LimitIOC => 0,
        OrderType::LimitGTC => 1,
        OrderType::Market => 2,
    }
}

/// The bincode encoding of an order: its fields in declaration order,
/// integers as fixed-width little endian, each enum as its `u32` variant index.
pub open spec fn payload_encoding(p: OpPayload) -> Seq<u8> {
    spec_u64_to_le_bytes(p.trader_id) + spec_u32_to_le_bytes(side_index(p.side)) + spec_u64_to_le_bytes(p.price)
        + spec_u64_to_le_bytes(p.qty) + spec_u32_to_le_bytes(order_type_index(p.order_type))
}

/// Calls `bincode::serialize` on the tuple of an order's field values.
/// Trusted: bincode's default configuration writes each integer of a tuple
/// in order, fixed width and little endian, and serializing integers into
/// a `Vec` cannot fail.
#[verifier::external_body]
fn bincode_order_fields(trader_id: u64, side: u32, price: u64, qty: u64, order_type: u32) -> (bytes: Vec<u8>)
    ensures
        bytes@ == spec_u64_to_le_bytes(trader_id) + spec_u32_to_le_bytes(side) + spec_u64_to_le_bytes(price)
            + spec_u64_to_le_bytes(qty) + spec_u32_to_le_bytes(order_type),
{
    bincode::serialize(&(trader_id, side, price, qty, order_type)).unwrap()
}

/// The bincode encoding of an order (see `payload_encoding`).
pub fn encode_payload(payload: &OpPayload) -> (bytes: Vec<u8>)
    ensures
        bytes@ == payload_encoding(*payload),
{
    let side: u32 = match payload.side {
        Side::Buy => 0,
        Side::Sell => 1,
    };
    let order_type: u32 = match payload.order_type {
        OrderType::LimitIOC => 0,
        OrderType::LimitGTC => 1,
        OrderType::Market => 2,
    };
    bincode_order_fields(payload.trader_id, side, payload.price, payload.qty, order_type)
}

/// The bincode encoding of a sequenced order, as it is logged: its causal
/// id, its price (`u64`, little endian), the encoding of the order itself
/// (see `payload_encoding`) and its content hash.
pub open spec fn op_encoding(op: OrderedOp) -> Seq<u8> {
    op.causal_id@ + spec_u64_to_le_bytes(op.price) + payload_encoding(op.payload) + op.content_hash@
}

/// Calls `bincode::serialize` on the field values of a sequenced order, as
/// a tuple with the order's own fields nested as a tuple. Trusted:
/// bincode's default configuration writes a tuple's elements in order with
/// no framing, a `[u8; 32]` as its 32 bytes, and each integer fixed width
/// and little endian; serializing into a `Vec` cannot fail.
#[verifier::external_body]
fn bincode_op_fields(
    causal_id: [u8; 32],
    price: u64,
    trader_id: u64,
    side: u32,
    order_price: u64,
    qty: u64,
    order_type: u32,
    content_hash: [u8; 32],
) -> (bytes: Vec<u8>)
    ensures
        bytes@ == causal_id@ + spec_u64_to_le_bytes(price) + (spec_u64_to_le_bytes(trader_id) + spec_u32_to_le_bytes(
            side,
        ) + spec_u64_to_le_bytes(order_price) + spec_u64_to_le_bytes(qty) + spec_u32_to_le_bytes(order_type))
            + content_hash@,
{
    bincode::serialize(&(causal_id, price, (trader_id, side, order_price, qty, order_type), content_hash)).unwrap()
}

/// The bincode encoding of a sequenced order (see `op_encoding`).
pub fn encode_op(op: &OrderedOp) -> (bytes: Vec<u8>)
    ensures
        bytes@ == op_encoding(*op),
{
    let side: u32 = match op.payload.side {
        Side::Buy => 0,
        Side::Sell => 1,
    };
    let order_type: u32 = match op.payload.order_type {
        OrderType::LimitIOC => 0,
        OrderType::LimitGTC => 1,
        OrderType::Market => 2,
    };
    bincode_op_fields(
        op.causal_id,
        op.price,
        op.payload.trader_id,
        side,
        op.payload.price,
        op.payload.qty,
        order_type,
        op.content_hash,
    )
}

/// The content hash of an order: SHA-256 of its bincode encoding.
pub fn compute_content_hash(payload: &OpPayload) -> (hash: [u8; 32])
    ensures
        hash@ == spec_sha256(payload_encoding(*payload)),
{
    let bytes = encode_payload(payload);
    sha256(bytes.as_slice())
}

} // verus!

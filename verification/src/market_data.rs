//! Market-data diffs published after each fill.
use vstd::prelude::*;
use crossbeam::channel::Sender;

verus! {

/// A change to the visible book at one price level.
#[derive(Debug, Clone, Copy)]
pub struct DiffEvent {
    pub price: u64,
    pub qty_delta: i64,
    pub side: u8,
    pub seq: u64,
}

/// `crossbeam::channel::Sender`, opaque to the library.
#[verifier::external_type_specification]
#[verifier::external_body]
#[verifier::reject_recursive_types(T)]
pub struct ExSender<T>(crossbeam::channel::Sender<T>);

/// Whether a receiving end of the channel behind `tx` still exists.
pub uninterp spec fn has_receiver(tx: Sender<DiffEvent>) -> bool;

/// Calls `crossbeam::channel::bounded(capacity)` and keeps only the sending
/// end; the receiving end is dropped on return, which disconnects the
/// channel for good. Trusted: the sender has no receiver. `bounded` panics
/// when `capacity + 1` rounded up to a power of two, doubled, overflows
/// `usize`, and the buffer of `capacity` slots must fit in memory: the
/// bound below keeps clear of both.
#[verifier::external_body]
fn open_sender_without_receiver(capacity: usize) -> (tx: Sender<DiffEvent>)
    requires
        capacity <= usize::MAX / 64,
    ensures
        !has_receiver(tx),
{
    let (tx, _rx) = crossbeam::channel::bounded(capacity);
    tx
}

/// Calls `Sender::try_send`, which never blocks. Trusted: a message is only
/// delivered while a receiver exists (a disconnected channel refuses it).
/// Whether a connected channel takes it depends on how full it is, which
/// is left unsaid.
#[verifier::external_body]
fn try_send_diff(tx: &Sender<DiffEvent>, event: DiffEvent) -> (delivered: bool)
    ensures
        delivered ==> has_receiver(*tx),
{
    tx.try_send(event).is_ok()
}

/// Publishes diffs without ever blocking the engine; diffs that cannot be
/// delivered are counted in `drop_count`.
pub struct MarketDataHub {
    tx: Sender<DiffEvent>,
    pub drop_count: u64,
}

impl MarketDataHub {
    /// Nobody listens on the hub's channel.
    pub closed spec fn is_detached(&self) -> bool {
        !has_receiver(self.tx)
    }

    /// The number of diffs that could not be delivered (wrapping).
    pub closed spec fn dropped(&self) -> u64 {
        self.drop_count
    }

    /// A hub over a channel of the given capacity. Its receiving end is
    /// not kept, so nothing published through it is delivered.
    pub fn new(capacity: usize) -> (hub: MarketDataHub)
        requires
            capacity <= usize::MAX / 64,
        ensures
            hub.dropped() == 0,
            hub.is_detached(),
    {
        MarketDataHub { tx: open_sender_without_receiver(capacity), drop_count: 0 }
    }

    /// Publishes a diff; a diff that is not delivered adds one (wrapping)
    /// to `drop_count`.
    pub fn push_diff(&mut self, event: DiffEvent)
        ensures
            final(self).is_detached() == old(self).is_detached(),
            final(self).dropped() == old(self).dropped() || final(self).dropped() == next_count(
                old(self).dropped(),
            ),
            old(self).is_detached() ==> final(self).dropped() == next_count(old(self).dropped()),
    {
        if !try_send_diff(&self.tx, event) {
            self.drop_count = if self.drop_count == u64::MAX { 0 } else { self.drop_count + 1 };
        }
    }
}

/// One more, wrapping at `u64::MAX`.
pub open spec fn next_count(n: u64) -> u64 {
    if n == u64::MAX { 0 } else { (n + 1) as u64 }
}

} // verus!

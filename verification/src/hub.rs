//! The hub: one shared counter and one update bus, with the two endpoint
//! contracts over them.
//!
//! - Mutation endpoint: [`Hub::increment`] and [`Hub::decrement`] apply a
//!   delta of `+1` or `-1` to the counter and then, unconditionally,
//!   publish the post-mutation value to the bus — exactly one update event
//!   per successful mutation, published after the mutation is committed.
//! - Subscription endpoint: [`Hub::subscribe`] registers with the bus
//!   *first* and only then snapshots the counter. Registering first closes
//!   the race in which a mutation lands between the snapshot read and the
//!   start of live delivery and is silently lost; with this order such a
//!   mutation can at worst be seen twice (snapshot and live event), never
//!   skipped: duplicate-tolerant, never gap-tolerant.

use vstd::prelude::*;
use crate::bus::{publish_step, subscribe_step, UpdateBus};
use crate::counter::{wrap_i32, SharedCounter};

verus! {

/// What one poll of a subscriber's buffer found.
#[derive(Clone, Copy, Debug, PartialEq, Eq, Structural)]
pub enum PollResult {
    /// The oldest undelivered value.
    Delivered(i32),
    /// The receiver is live but has nothing pending.
    Empty,
    /// The receiver has left the live set (disconnected or evicted).
    Closed,
}

/// The process-wide context: the authoritative counter and the fan-out bus,
/// constructed once at startup and passed to every handler.
pub struct Hub {
    pub counter: SharedCounter,
    pub bus: UpdateBus,
}

impl Hub {
    /// Besides the bus's own invariant: the publish history is exactly the
    /// trace of post-mutation counter values, so its last entry — the
    /// newest published value — is the current counter value (zero before
    /// the first mutation). A new subscriber's snapshot is therefore never
    /// older than the newest published value.
    pub open spec fn wf(self) -> bool {
        &&& self.bus.wf()
        &&& if self.bus.hist@.len() == 0 {
            self.value() == 0
        } else {
            self.bus.hist@.last() as int == self.value()
        }
    }

    /// The current counter value, as a mathematical integer.
    pub open spec fn value(self) -> int {
        self.counter.spec_value()
    }

    /// A fresh hub: counter at zero, no subscribers, empty history.
    pub fn new(capacity: usize) -> (h: Self)
        requires
            capacity >= 1,
        ensures
            h.wf(),
            h.value() == 0,
            h.bus.cap == capacity,
            h.bus.next_id == 0,
            h.bus.live_count() == 0,
            h.bus.hist@ == Seq::<i32>::empty(),
            forall|x: u64| !h.bus.has(x),
    {
        Hub { counter: SharedCounter::new(), bus: UpdateBus::new(capacity) }
    }

    /// Applies `delta` to the counter under the wrapping policy and then
    /// publishes the post-mutation value: exactly one update event, carrying
    /// the committed value, reaches every live subscriber with buffer room.
    pub fn mutate(&mut self, delta: i32) -> (v: i32)
        requires
            old(self).wf(),
        ensures
            final(self).wf(),
            v as int == wrap_i32(old(self).value() + delta),
            final(self).value() == v as int,
            publish_step(old(self).bus, final(self).bus, v),
    {
        let v = self.counter.mutate(delta);
        self.bus.publish(v);
        v
    }

    /// The mutation endpoint's "increment": `mutate(+1)`, then publish.
    pub fn increment(&mut self) -> (v: i32)
        requires
            old(self).wf(),
        ensures
            final(self).wf(),
            v as int == wrap_i32(old(self).value() + 1),
            final(self).value() == v as int,
            publish_step(old(self).bus, final(self).bus, v),
    {
        self.mutate(1)
    }

    /// The mutation endpoint's "decrement": `mutate(-1)`, then publish.
    pub fn decrement(&mut self) -> (v: i32)
        requires
            old(self).wf(),
        ensures
            final(self).wf(),
            v as int == wrap_i32(old(self).value() - 1),
            final(self).value() == v as int,
            publish_step(old(self).bus, final(self).bus, v),
    {
        self.mutate(-1)
    }

    /// The subscription endpoint's connect step: registers a receiver with
    /// the bus, then snapshots the counter. The snapshot is the first value
    /// the new client is shown; the receiver then delivers every value
    /// published after registration, so nothing between the two is lost.
    pub fn subscribe(&mut self) -> (r: (u64, i32))
        requires
            old(self).wf(),
            old(self).bus.next_id < u64::MAX,
        ensures
            final(self).wf(),
            final(self).value() == old(self).value(),
            r.0 == old(self).bus.next_id,
            final(self).bus.next_id == old(self).bus.next_id + 1,
            r.1 as int == old(self).value(),
            subscribe_step(old(self).bus, final(self).bus, r.0),
    {
        let id = self.bus.subscribe();
        let first = self.counter.get();
        (id, first)
    }

    /// One poll of a subscriber's receiver: the oldest undelivered value if
    /// one is buffered, `Empty` if the receiver is live with an empty
    /// buffer, and `Closed` exactly when the id is no longer live.
    pub fn poll(&mut self, id: u64) -> (r: PollResult)
        requires
            old(self).wf(),
        ensures
            final(self).wf(),
            final(self).value() == old(self).value(),
            final(self).bus.hist@ == old(self).bus.hist@,
            final(self).bus.cap == old(self).bus.cap,
            final(self).bus.next_id == old(self).bus.next_id,
            final(self).bus.live_count() == old(self).bus.live_count(),
            forall|x: u64|
                x != id ==> (#[trigger] final(self).bus.has(x) <==> old(self).bus.has(x)),
            forall|x: u64|
                x != id && #[trigger] old(self).bus.has(x) ==> final(self).bus.has(x)
                    && final(self).bus.sub_of(x) == old(self).bus.sub_of(x),
            final(self).bus.has(id) <==> old(self).bus.has(id),
            match r {
                PollResult::Delivered(v) => {
                    &&& old(self).bus.has(id)
                    &&& old(self).bus.pending(id).len() > 0
                    &&& v == old(self).bus.pending(id)[0]
                    &&& final(self).bus.pending(id) == old(self).bus.pending(id).subrange(
                        1,
                        old(self).bus.pending(id).len() as int,
                    )
                    &&& final(self).bus.seen_of(id) == old(self).bus.seen_of(id).push(v)
                    &&& final(self).bus.joined_of(id) == old(self).bus.joined_of(id)
                },
                PollResult::Empty => {
                    &&& old(self).bus.has(id)
                    &&& old(self).bus.pending(id).len() == 0
                    &&& final(self).bus.sub_of(id) == old(self).bus.sub_of(id)
                },
                PollResult::Closed => !old(self).bus.has(id),
            },
    {
        if !self.bus.is_live(id) {
            PollResult::Closed
        } else {
            match self.bus.recv(id) {
                Some(v) => PollResult::Delivered(v),
                None => PollResult::Empty,
            }
        }
    }

    /// The subscription endpoint's disconnect step: the receiver leaves the
    /// bus's live set at once, so repeated connect/disconnect cycles cannot
    /// grow it.
    pub fn unsubscribe(&mut self, id: u64)
        requires
            old(self).wf(),
        ensures
            final(self).wf(),
            final(self).value() == old(self).value(),
            final(self).bus.hist@ == old(self).bus.hist@,
            final(self).bus.cap == old(self).bus.cap,
            final(self).bus.next_id == old(self).bus.next_id,
            !final(self).bus.has(id),
            forall|x: u64|
                x != id ==> (#[trigger] final(self).bus.has(x) <==> old(self).bus.has(x)),
            forall|x: u64|
                x != id && #[trigger] old(self).bus.has(x) ==> final(self).bus.has(x)
                    && final(self).bus.sub_of(x) == old(self).bus.sub_of(x),
            final(self).bus.live_count() == if old(self).bus.has(id) {
                (old(self).bus.live_count() - 1) as nat
            } else {
                old(self).bus.live_count()
            },
    {
        self.bus.unsubscribe(id);
    }

    /// A point-in-time snapshot of the counter.
    pub fn current(&self) -> (v: i32)
        ensures
            v as int == self.value(),
    {
        self.counter.get()
    }

    /// How many receivers are live on the bus.
    pub fn subscriber_count(&self) -> (n: usize)
        ensures
            n == self.bus.live_count(),
    {
        self.bus.subscriber_count()
    }
}

} // verus!

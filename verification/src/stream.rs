//! The subscription stream's per-event decision: what one wake-up of a
//! subscriber's long-lived stream task emits.
//!
//! The task suspends on two wait conditions at once — the next bus event
//! and the keep-alive timer — and handles whichever fires first. A real
//! value is emitted as its encoded payload; a timer tick becomes a
//! keep-alive frame, which is not a value event and must not disturb the
//! order of real events; a closed receiver (disconnect or lagging-
//! subscriber eviction) closes the stream to the client rather than
//! silently resuming with a gap.

use vstd::prelude::*;
use crate::codec::{encode_event, spec_encode_event};

verus! {

/// Fixed cadence of the keep-alive frame, in seconds.
pub const KEEP_ALIVE_SECS: u64 = 1;

/// What woke the stream task up.
pub enum StreamEvent {
    /// The bus delivered a counter value.
    Value(i32),
    /// The receiver was closed: the client disconnected or the bus
    /// evicted the receiver as a lagging subscriber.
    Closed,
    /// The keep-alive timer fired before any value arrived.
    Tick,
}

/// What the task hands to the client in response.
pub enum StreamAction {
    /// Send this payload as one value event.
    Emit(Vec<u8>),
    /// Send a keep-alive frame, distinguishable from a value event.
    KeepAlive,
    /// Close the stream to the client.
    Close,
}

/// The decision table of the stream task, as a relation.
pub open spec fn step_spec(e: StreamEvent, a: StreamAction) -> bool {
    match e {
        StreamEvent::Value(v) => a matches StreamAction::Emit(p) && p@ == spec_encode_event(
            v as int,
        ),
        StreamEvent::Closed => a is Close,
        StreamEvent::Tick => a is KeepAlive,
    }
}

/// Decides one wake-up of the stream task.
pub fn step(e: &StreamEvent) -> (a: StreamAction)
    ensures
        step_spec(*e, a),
{
    match e {
        StreamEvent::Value(v) => StreamAction::Emit(encode_event(*v)),
        StreamEvent::Closed => StreamAction::Close,
        StreamEvent::Tick => StreamAction::KeepAlive,
    }
}

} // verus!

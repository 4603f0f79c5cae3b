//! A verified model of a shared live counter: a single mutable integer that
//! many concurrent clients may increment or decrement, and whose every new
//! value is fanned out, in order and without gaps, to all current
//! subscribers of an update bus.
//!
//! The modules hold, in dependency order:
//! - [`counter`]: the shared counter and its wrapping arithmetic;
//! - [`bus`]: the fan-out update bus with bounded per-subscriber buffers;
//! - [`hub`]: the mutation and subscription endpoints over counter and bus;
//! - [`codec`]: the decimal wire encoding of update events;
//! - [`stream`]: the per-subscriber stream-step decision;
//! - [`route`]: the static-asset routing decisions of the surrounding server.

pub mod bus;
pub mod codec;
pub mod counter;
pub mod hub;
pub mod route;
pub mod stream;

//! A causally ordered event-sourcing core: a hybrid logical clock, an event
//! model, a payload codec and an append-only event log replayed in clock
//! order.

pub mod codec;
pub mod event;
pub mod hlc;
pub mod storage;

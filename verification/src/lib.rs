//! Duty cycle of a battery-powered GNSS beacon: wake, get a position, sleep.
//!
//! The crate holds the decisions of the firmware as state machines over plain
//! values. The firmware's shell performs each command on the hardware and
//! reports back what happened.

pub mod accumulator;
pub mod acquisition;
pub mod decoder;
pub mod deep_sleep;
pub mod duty_cycle;
pub mod session;

//! Gamepads through Apple's GameController framework.
//!
//! The framework is an allow-list of pads that it hands over already mapped into an
//! extended gamepad profile, and it is polled. This library is what has to be decided
//! around it: which pads are there and under which index, what counts as a pressed
//! button and as a moved axis, which events that makes, in which order they are handed
//! out, and how long to wait for one. It does no input or output itself; whoever talks
//! to the framework hands it plain values and does what it says.
//!
//! - [`binary32`]: the two questions asked of a floating-point reading
//! - [`state`], [`changes`]: what a pad reads as, and the events between two states
//! - [`gamepad`], [`gilrs`]: one pad, and all pads together
//! - [`pump`]: when to turn the run loop
//! - [`ev_code`], [`native_ev_codes`], [`event`]: the codes and the events
//! - [`promises`]: what a poll promises of the pads before and after it
//! - [`laws`]: what holds over whole polls

use vstd::prelude::*;

pub mod binary32;
pub mod changes;
pub mod ev_code;
pub mod event;
pub mod gamepad;
pub mod gilrs;
pub mod laws;
pub mod native_ev_codes;
pub mod promises;
pub mod pump;
pub mod state;

pub use crate::ev_code::EvCode;
pub use crate::event::{Event, EventType};
pub use crate::gamepad::{AxisInfo, FfDevice, Gamepad, PowerInfo};
pub use crate::gilrs::Gilrs;

verus! {

/// `false`: the Y axis of a stick is up-positive in GameController already, so nothing
/// needs flipping.
pub const IS_Y_AXIS_REVERSED: bool = false;

} // verus!

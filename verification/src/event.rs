//! What a pad reports.

use crate::ev_code::EvCode;
use vstd::prelude::*;

verus! {

/// What happened to a pad.
#[derive(Copy, Clone, Debug, PartialEq, Eq, Structural)]
pub enum EventType {
    ButtonPressed(EvCode),
    ButtonReleased(EvCode),
    /// The value is in the units of [`crate::gamepad::AxisInfo`].
    AxisValueChanged(i32, EvCode),
    Connected,
    Disconnected,
}

/// Something that happened to the pad with index `id`.
#[derive(Copy, Clone, Debug, PartialEq, Eq, Structural)]
pub struct Event {
    pub id: usize,
    pub event: EventType,
}

impl Event {
    pub fn new(id: usize, event: EventType) -> (this: Event)
        ensures
            this == (Event { id, event }),
    {
        Event { id, event }
    }
}

} // verus!

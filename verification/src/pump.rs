//! When to turn the run loop, and for how long.
//!
//! GameController delivers everything, be it arrival, departure or input, through
//! the run loop, and there is no thread that would turn it. Whoever holds the pads
//! turns it by hand; the functions here decide when. Time is what has passed since
//! the wait began, in nanoseconds.

use crate::event::Event;
use vstd::prelude::*;

verus! {

/// The most turns of one drain of the run loop. A source that re-arms itself each
/// time it is serviced would otherwise be serviced forever.
pub const TURN_LIMIT: u32 = 64;

/// How long to wait for a first controller at the start: 50 ms.
pub const BOOT_WAIT_NANOS: u128 = 50_000_000;

/// How long one turn of the run loop lasts at most while waiting for a first
/// controller.
pub const BOOT_TURN_MILLIS: u64 = 2;

/// How long one turn of the run loop lasts at most while waiting for an event.
pub const EVENT_TURN_MILLIS: u64 = 4;

/// What to do at the start.
#[derive(Copy, Clone, Debug, PartialEq, Eq, Structural)]
pub enum BootStep {
    /// Turn the run loop for up to so many milliseconds, and list the controllers again.
    Pump { millis: u64 },
    /// Poll the pads. The start is over.
    Poll,
}

/// What to do while waiting for an event.
#[derive(Copy, Clone, Debug, PartialEq, Eq, Structural)]
pub enum WaitStep {
    /// Turn the run loop for up to so many milliseconds, and look for an event again.
    Pump { millis: u64 },
    /// The wait is over, with or without an event.
    Return(Option<Event>),
}

/// Whether a drain goes on after `turns` turns, of which the last one serviced a source
/// or not.
pub open spec fn another_turn(turns: nat, serviced: bool) -> bool {
    serviced && turns < TURN_LIMIT
}

/// Whether the run loop needs another turn, after `turns` turns of which the last
/// one serviced a source or not.
///
/// A turn services one source at most, so one turn may leave others waiting. The
/// drain goes on until a turn finds nothing to do, or until [`TURN_LIMIT`].
pub fn drain_again(turns: u32, serviced: bool) -> (again: bool)
    ensures
        again == another_turn(turns as nat, serviced),
        again == (serviced && turns < 64),
{
    serviced && turns < TURN_LIMIT
}

/// The next step at the start, when so many controllers are listed and so much time
/// has passed.
///
/// The framework answers the first call to it a few turns of the run loop later, so
/// a list that is empty gets a bounded moment to fill.
pub fn boot_step(controllers: usize, elapsed: u128) -> (step: BootStep)
    ensures
        step == (if controllers == 0 && elapsed < BOOT_WAIT_NANOS {
            BootStep::Pump { millis: BOOT_TURN_MILLIS }
        } else {
            BootStep::Poll
        }),
        step is Pump <==> controllers == 0 && elapsed < 50_000_000,
        step is Pump ==> step->millis == 2,
{
    if controllers == 0 && elapsed < BOOT_WAIT_NANOS {
        BootStep::Pump { millis: BOOT_TURN_MILLIS }
    } else {
        BootStep::Poll
    }
}

/// The next step while waiting for an event, given the one that was found, the time
/// that has passed, and the time after which to give up, if any.
///
/// An event is returned even when the time is up, and without a timeout the wait
/// ends with an event only.
pub fn wait_step(event: Option<Event>, elapsed: u128, timeout: Option<u128>) -> (step: WaitStep)
    ensures
        step == (if event is Some || (timeout is Some && elapsed >= timeout->0) {
            WaitStep::Return(event)
        } else {
            WaitStep::Pump { millis: EVENT_TURN_MILLIS }
        }),
        event is Some ==> step == WaitStep::Return(event),
        event is None && timeout is None ==> step is Pump,
        event is None && timeout is Some ==> (step is Return <==> elapsed >= timeout->0),
        step is Pump ==> step->millis == 4,
{
    if event.is_some() {
        return WaitStep::Return(event);
    }
    if let Some(limit) = timeout {
        if elapsed >= limit {
            return WaitStep::Return(None);
        }
    }
    WaitStep::Pump { millis: EVENT_TURN_MILLIS }
}

/// The number of turns of a drain, when turn `k` (counted from zero) reports
/// `serviced[k]`. A drain that runs out of reports has taken them all.
pub open spec fn turns_taken(serviced: Seq<bool>, from: nat) -> nat
    decreases serviced.len() - from,
{
    if from >= serviced.len() {
        from
    } else if another_turn(from + 1, serviced[from as int]) {
        turns_taken(serviced, from + 1)
    } else {
        from + 1
    }
}

/// A drain ends after [`TURN_LIMIT`] turns at the latest, and earlier only with a turn
/// that found nothing to do: every turn but the last one serviced a source.
pub proof fn law_drain_is_bounded(serviced: Seq<bool>)
    requires
        serviced.len() >= TURN_LIMIT,
    ensures
        1 <= turns_taken(serviced, 0) <= TURN_LIMIT,
        forall|k: int| 0 <= k < turns_taken(serviced, 0) - 1 ==> serviced[k],
        turns_taken(serviced, 0) < TURN_LIMIT ==> !serviced[turns_taken(serviced, 0) - 1],
{
    lemma_turns(serviced, 0);
}

proof fn lemma_turns(serviced: Seq<bool>, from: nat)
    requires
        serviced.len() >= TURN_LIMIT,
        from < TURN_LIMIT,
    ensures
        from < turns_taken(serviced, from) <= TURN_LIMIT,
        forall|k: int| from <= k < turns_taken(serviced, from) - 1 ==> serviced[k],
        turns_taken(serviced, from) < TURN_LIMIT ==> !serviced[turns_taken(serviced, from) - 1],
    decreases TURN_LIMIT - from,
{
    if another_turn(from + 1, serviced[from as int]) {
        lemma_turns(serviced, from + 1);
    }
}

} // verus!

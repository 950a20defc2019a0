//! What holds of the pads over a whole poll, and over any number of them.

use crate::changes;
use crate::event::{Event, EventType};
use crate::gamepad;
use crate::gamepad::GamepadView;
use crate::gilrs;
use crate::gilrs::{GilrsView, PollReply, PollRequest, Sighting};
use crate::native_ev_codes;
use crate::pump;
use crate::state::Readings;
use vstd::prelude::*;

verus! {

/// What someone knows who hears nothing but events: how many pads there are, and
/// which of them are connected.
#[verifier::ext_equal]
pub struct Follower {
    pub pads: nat,
    pub on: Set<int>,
}

/// What a follower makes of an event. `None` is an event that makes no sense to them:
/// a pad that connects twice, or with an index that leaves a gap, or a pad that does
/// anything else without being connected.
pub open spec fn hear(follower: Option<Follower>, event: Event) -> Option<Follower> {
    match follower {
        None => None,
        Some(f) => {
            let id = event.id as int;
            match event.event {
                EventType::Connected => if id <= f.pads && !f.on.contains(id) {
                    Some(
                        Follower {
                            pads: if id == f.pads {
                                f.pads + 1
                            } else {
                                f.pads
                            },
                            on: f.on.insert(id),
                        },
                    )
                } else {
                    None
                },
                EventType::Disconnected => if f.on.contains(id) {
                    Some(Follower { on: f.on.remove(id), ..f })
                } else {
                    None
                },
                _ => if f.on.contains(id) {
                    Some(f)
                } else {
                    None
                },
            }
        },
    }
}

/// What a follower makes of a sequence of events.
pub open spec fn hear_all(follower: Option<Follower>, events: Seq<Event>) -> Option<Follower>
    decreases events.len(),
{
    if events.len() == 0 {
        follower
    } else {
        hear(hear_all(follower, events.drop_last()), events.last())
    }
}

/// What is the case, in the terms of a follower.
pub open spec fn picture(pads: Seq<GamepadView>) -> Follower {
    Follower {
        pads: pads.len(),
        on: Set::new(|i: int| 0 <= i < pads.len() && pads[i].is_connected),
    }
}

/// Whether a follower, once they have heard the events that still wait, knows what is
/// the case.
pub open spec fn in_step(follower: Follower, g: GilrsView) -> bool {
    hear_all(Some(follower), g.queue) == Some(picture(g.gamepads))
}

proof fn lemma_hear_all_append(follower: Option<Follower>, first: Seq<Event>, second: Seq<Event>)
    ensures
        hear_all(follower, first + second) == hear_all(hear_all(follower, first), second),
    decreases second.len(),
{
    if second.len() == 0 {
        assert(first + second =~= first);
    } else {
        assert((first + second).drop_last() =~= first + second.drop_last());
        lemma_hear_all_append(follower, first, second.drop_last());
    }
}

proof fn lemma_hear_nothing(events: Seq<Event>)
    ensures
        hear_all(None, events) is None,
    decreases events.len(),
{
    if events.len() > 0 {
        lemma_hear_nothing(events.drop_last());
    }
}

/// Where there are no pads and no events, a follower who knows of no pad is in step.
pub proof fn law_follower_starts_in_step(g: GilrsView)
    requires
        g.gamepads == Seq::<GamepadView>::empty(),
        g.queue == Seq::<Event>::empty(),
    ensures
        in_step(Follower { pads: 0, on: Set::empty() }, g),
{
    assert(picture(g.gamepads).on =~= Set::empty());
}

/// The event that is handed out next makes sense to a follower who is in step, and
/// having heard it they still are.
pub proof fn law_delivery_keeps_follower_in_step(follower: Follower, g: GilrsView)
    requires
        in_step(follower, g),
        g.queue.len() > 0,
    ensures
        ({
            let next = hear(Some(follower), g.queue[0]);
            next is Some && in_step(next->0, GilrsView { queue: g.queue.drop_first(), ..g })
        }),
{
    let first = seq![g.queue[0]];
    let rest = g.queue.drop_first();
    assert(g.queue =~= first + rest);
    lemma_hear_all_append(Some(follower), first, rest);
    reveal_with_fuel(hear_all, 2);
    assert(first.drop_last() =~= Seq::<Event>::empty());
    lemma_hear_nothing(rest);
}

/// The pads during [`gilrs::reconciled`], after the list was read: those that were
/// connected, and those that the list shows.
spec fn half_reconciled(pads: Seq<GamepadView>, found: Seq<Sighting>) -> Seq<GamepadView> {
    gilrs::admitted(pads, found).map_values(
        |pad: GamepadView|
            GamepadView {
                is_connected: pad.is_connected || gilrs::shows(found, pad.controller),
                ..pad
            },
    )
}

proof fn lemma_arrivals(pads: Seq<GamepadView>, found: Seq<Sighting>)
    requires
        gilrs::distinct(pads),
        gilrs::admitted(pads, found).len() <= usize::MAX,
    ensures
        hear_all(Some(picture(pads)), gilrs::arrivals(pads, found)) == Some(
            picture(half_reconciled(pads, found)),
        ),
    decreases found.len(),
{
    if found.len() == 0 {
        assert(half_reconciled(pads, found) =~= pads);
    } else {
        let earlier = found.drop_last();
        let seen = found.last();
        let c = seen.controller;
        gilrs::lemma_admitted_step(pads, found);
        gilrs::lemma_admitted_distinct(pads, earlier);
        gilrs::lemma_admitted_distinct(pads, found);
        gilrs::lemma_admitted_knows(pads, earlier, c);
        lemma_arrivals(pads, earlier);
        let before = gilrs::admitted(pads, earlier);
        let after = gilrs::admitted(pads, found);
        let f0 = picture(half_reconciled(pads, earlier));
        let f1 = picture(half_reconciled(pads, found));
        assert forall|i: int| 0 <= i < before.len() implies gilrs::shows(
            found,
            (#[trigger] before[i]).controller,
        ) == (gilrs::shows(earlier, before[i].controller) || (c == before[i].controller
            && seen.profile is Some)) by {
            gilrs::lemma_shows_step(found, before[i].controller);
        }
        if seen.profile is Some {
            if gilrs::knows(before, c) {
                let id = gilrs::slot(before, c);
                assert(before[id].controller == c);
                gilrs::lemma_slot(before, id);
                if id < pads.len() {
                    assert(pads[id].controller == c);
                    gilrs::lemma_slot(pads, id);
                } else {
                    assert(!gilrs::knows(pads, c)) by {
                        if gilrs::knows(pads, c) {
                            let k = gilrs::slot(pads, c);
                            assert(before[k].controller == c);
                        }
                    }
                }
                let is_connected = gilrs::knows(pads, c) && pads[gilrs::slot(
                    pads,
                    c,
                )].is_connected;
                if !is_connected && !gilrs::shows(earlier, c) {
                    let event = Event { id: id as usize, event: EventType::Connected };
                    assert(gilrs::arrivals(pads, found).drop_last() =~= gilrs::arrivals(
                        pads,
                        earlier,
                    ));
                    assert(gilrs::arrivals(pads, found).last() == event);
                    assert(f0.on.insert(id) =~= f1.on);
                } else {
                    assert(f0.on =~= f1.on);
                }
            } else {
                let id = before.len() as int;
                assert(after[id] == gilrs::newcomer(seen));
                gilrs::lemma_slot(after, id);
                let event = Event { id: id as usize, event: EventType::Connected };
                assert(gilrs::arrivals(pads, found).drop_last() =~= gilrs::arrivals(
                    pads,
                    earlier,
                ));
                assert(gilrs::arrivals(pads, found).last() == event);
                assert(f0.on.insert(id) =~= f1.on);
            }
        } else {
            assert(f0.on =~= f1.on);
        }
    }
}

proof fn lemma_departures(pads: Seq<GamepadView>, found: Seq<Sighting>, n: nat)
    requires
        n <= pads.len() <= usize::MAX,
    ensures
        ({
            let start = picture(half_reconciled(pads, found));
            let gone = Set::new(
                |i: int| 0 <= i < n && !gilrs::shows(found, pads[i].controller),
            );
            hear_all(Some(start), gilrs::departures(pads, found, n)) == Some(
                Follower { on: start.on.difference(gone), ..start },
            )
        }),
    decreases n,
{
    let start = picture(half_reconciled(pads, found));
    let gone = Set::new(|i: int| 0 <= i < n && !gilrs::shows(found, pads[i].controller));
    if n == 0 {
        assert(start.on.difference(gone) =~= start.on);
    } else {
        let id = n - 1;
        lemma_departures(pads, found, id as nat);
        let gone_before = Set::new(
            |i: int| 0 <= i < id && !gilrs::shows(found, pads[i].controller),
        );
        assert(gilrs::admitted(pads, found)[id] == pads[id]);
        let before = gilrs::departures(pads, found, id as nat);
        if pads[id].is_connected && !gilrs::shows(found, pads[id].controller) {
            let event = Event { id: id as usize, event: EventType::Disconnected };
            assert(before.push(event).drop_last() =~= before);
            assert(start.on.difference(gone_before).contains(id));
            assert(start.on.difference(gone_before).remove(id) =~= start.on.difference(gone));
        } else {
            assert(start.on.difference(gone_before) =~= start.on.difference(gone));
        }
    }
}

/// Whatever controllers are listed, the events that it leads to make sense to a
/// follower who was in step, and having heard them they still are. So pads get their
/// indices in ascending order and without a gap, and connect and disconnect in turn.
pub proof fn law_reconciling_keeps_follower_in_step(
    follower: Follower,
    g: GilrsView,
    found: Seq<Sighting>,
)
    requires
        g.wf(),
        in_step(follower, g),
        gilrs::reconciled(g, found).gamepads.len() <= usize::MAX,
    ensures
        in_step(follower, gilrs::reconciled(g, found)),
{
    let pads = g.gamepads;
    let a = gilrs::arrivals(pads, found);
    let d = gilrs::departures(pads, found, pads.len());
    lemma_arrivals(pads, found);
    lemma_departures(pads, found, pads.len());
    lemma_hear_all_append(Some(follower), g.queue, a);
    lemma_hear_all_append(Some(follower), g.queue + a, d);
    gilrs::lemma_new_positions_bounds(pads, found);
    let after = gilrs::admitted(pads, found);
    assert forall|i: int| pads.len() <= i < after.len() implies gilrs::shows(
        found,
        (#[trigger] after[i]).controller,
    ) by {
        let j = gilrs::new_positions(pads, found)[i - pads.len()];
        assert(after[i] == gilrs::newcomer(found[j]));
        assert(found[j].controller == after[i].controller);
    }
    let start = picture(half_reconciled(pads, found));
    let gone = Set::new(
        |i: int| 0 <= i < pads.len() && !gilrs::shows(found, pads[i].controller),
    );
    assert forall|i: int| 0 <= i < pads.len() implies (#[trigger] after[i]) == pads[i] by {
    }
    assert(start.on.difference(gone) =~= picture(gilrs::reconciled(g, found).gamepads).on);
}

/// Whether a connected pad could report the event, by what it is of: a control of the
/// tables, of one of the pads that are connected.
pub open spec fn is_activity(pads: Seq<GamepadView>, event: Event) -> bool {
    &&& event.id < pads.len()
    &&& pads[event.id as int].is_connected
    &&& match event.event {
        EventType::ButtonPressed(code) => native_ev_codes::button_codes().contains(code),
        EventType::ButtonReleased(code) => native_ev_codes::button_codes().contains(code),
        EventType::AxisValueChanged(value, code) => gamepad::axis_range(code) is Some,
        EventType::Connected => false,
        EventType::Disconnected => false,
    }
}

proof fn lemma_activity(pads: Seq<GamepadView>, live: Seq<Readings>, n: nat)
    requires
        n <= pads.len() <= usize::MAX,
        forall|i: int| 0 <= i < pads.len() ==> (#[trigger] pads[i]).state.is_complete(),
    ensures
        forall|k: int|
            0 <= k < gilrs::activity(pads, live, n).len() ==> is_activity(
                pads,
                #[trigger] gilrs::activity(pads, live, n)[k],
            ),
    decreases n,
{
    if n > 0 {
        let id = n - 1;
        lemma_activity(pads, live, id as nat);
        let before = gilrs::activity(pads, live, id as nat);
        let now = gilrs::reading_of(pads, live, id).state();
        let all = gilrs::activity(pads, live, n);
        if pads[id].is_connected {
            let moves = changes::changes(id as usize, pads[id].state, now);
            changes::law_changes_are_true(id as usize, pads[id].state, now);
            assert forall|k: int| 0 <= k < all.len() implies is_activity(
                pads,
                #[trigger] all[k],
            ) by {
                if k < before.len() {
                    assert(all[k] == before[k]);
                } else {
                    let m = k - before.len();
                    assert(all[k] == moves[m]);
                    assert(changes::reports(id as usize, now, moves[m]));
                    gamepad::law_reported_axes_have_a_range(
                        id as usize,
                        pads[id].state,
                        now,
                        m,
                    );
                }
            }
        }
    }
}

/// Whatever the connected pads read, the events make sense to a follower who was in
/// step, and they stay in step.
pub proof fn law_sampling_keeps_follower_in_step(
    follower: Follower,
    g: GilrsView,
    live: Seq<Readings>,
)
    requires
        g.wf(),
        in_step(follower, g),
        g.gamepads.len() <= usize::MAX,
    ensures
        in_step(follower, gilrs::sampled(g, live)),
{
    let pads = g.gamepads;
    let events = gilrs::activity(pads, live, pads.len());
    lemma_activity(pads, live, pads.len());
    lemma_hear_all_append(Some(follower), g.queue, events);
    lemma_hear_activity(pads, events);
    assert(picture(gilrs::sampled(g, live).gamepads).on =~= picture(pads).on);
}

proof fn lemma_hear_activity(pads: Seq<GamepadView>, events: Seq<Event>)
    requires
        forall|k: int| 0 <= k < events.len() ==> is_activity(pads, #[trigger] events[k]),
    ensures
        hear_all(Some(picture(pads)), events) == Some(picture(pads)),
    decreases events.len(),
{
    if events.len() > 0 {
        lemma_hear_activity(pads, events.drop_last());
        assert(is_activity(pads, events[events.len() - 1]));
    }
}

/// A pad that is not connected is not touched by a new reading of the others, and
/// nothing is reported of it: what is reported is of connected pads and of controls
/// that are in the tables.
pub proof fn law_disconnected_pads_rest(g: GilrsView, live: Seq<Readings>, id: int)
    requires
        g.wf(),
        g.gamepads.len() <= usize::MAX,
        0 <= id < g.gamepads.len(),
        !g.gamepads[id].is_connected,
    ensures
        gilrs::sampled(g, live).gamepads[id] == g.gamepads[id],
        forall|k: int|
            g.queue.len() <= k < gilrs::sampled(g, live).queue.len() ==> (
            #[trigger] gilrs::sampled(g, live).queue[k]).id != id,
{
    let pads = g.gamepads;
    let events = gilrs::activity(pads, live, pads.len());
    lemma_activity(pads, live, pads.len());
    assert forall|k: int| g.queue.len() <= k < gilrs::sampled(g, live).queue.len() implies (
    #[trigger] gilrs::sampled(g, live).queue[k]).id != id by {
        assert(gilrs::sampled(g, live).queue[k] == events[k - g.queue.len()]);
        assert(is_activity(pads, events[k - g.queue.len()]));
    }
}

/// Whether whoever scales axis values finds the range of the axis that the event is of.
pub open spec fn is_answerable(event: Event) -> bool {
    event.event matches EventType::AxisValueChanged(value, code) ==> gamepad::axis_range(
        code,
    ) is Some
}

/// Every axis event that ever waits to be handed out is of an axis that
/// [`crate::gamepad::Gamepad::axis_info`] has an answer for.
pub proof fn law_waiting_events_are_answerable(
    g: GilrsView,
    found: Seq<Sighting>,
    live: Seq<Readings>,
)
    requires
        g.wf(),
        g.gamepads.len() <= usize::MAX,
        forall|k: int| 0 <= k < g.queue.len() ==> is_answerable(#[trigger] g.queue[k]),
    ensures
        forall|k: int|
            0 <= k < gilrs::reconciled(g, found).queue.len() ==> is_answerable(
                #[trigger] gilrs::reconciled(g, found).queue[k],
            ),
        forall|k: int|
            0 <= k < gilrs::sampled(g, live).queue.len() ==> is_answerable(
                #[trigger] gilrs::sampled(g, live).queue[k],
            ),
{
    let pads = g.gamepads;
    let a = gilrs::arrivals(pads, found);
    let d = gilrs::departures(pads, found, pads.len());
    lemma_arrivals_connect(pads, found);
    lemma_departures_disconnect(pads, found, pads.len());
    let queue = gilrs::reconciled(g, found).queue;
    assert forall|k: int| 0 <= k < queue.len() implies is_answerable(#[trigger] queue[k]) by {
        if k < g.queue.len() {
            assert(queue[k] == g.queue[k]);
        } else if k < g.queue.len() + a.len() {
            assert(queue[k] == a[k - g.queue.len()]);
        } else {
            assert(queue[k] == d[k - g.queue.len() - a.len()]);
        }
    }
    let events = gilrs::activity(pads, live, pads.len());
    lemma_activity(pads, live, pads.len());
    let queue = gilrs::sampled(g, live).queue;
    assert forall|k: int| 0 <= k < queue.len() implies is_answerable(#[trigger] queue[k]) by {
        if k < g.queue.len() {
            assert(queue[k] == g.queue[k]);
        } else {
            assert(queue[k] == events[k - g.queue.len()]);
            assert(is_activity(pads, events[k - g.queue.len()]));
        }
    }
}

proof fn lemma_arrivals_connect(pads: Seq<GamepadView>, found: Seq<Sighting>)
    ensures
        forall|k: int|
            0 <= k < gilrs::arrivals(pads, found).len() ==> (#[trigger] gilrs::arrivals(
                pads,
                found,
            )[k]).event is Connected,
    decreases found.len(),
{
    if found.len() > 0 {
        lemma_arrivals_connect(pads, found.drop_last());
        let before = gilrs::arrivals(pads, found.drop_last());
        let all = gilrs::arrivals(pads, found);
        assert forall|k: int| 0 <= k < all.len() implies (#[trigger] all[k]).event is Connected by {
            if k < before.len() {
                assert(all[k] == before[k]);
            }
        }
    }
}

proof fn lemma_departures_disconnect(pads: Seq<GamepadView>, found: Seq<Sighting>, n: nat)
    ensures
        forall|k: int|
            0 <= k < gilrs::departures(pads, found, n).len() ==> (#[trigger] gilrs::departures(
                pads,
                found,
                n,
            )[k]).event is Disconnected,
    decreases n,
{
    if n > 0 {
        lemma_departures_disconnect(pads, found, (n - 1) as nat);
        let before = gilrs::departures(pads, found, (n - 1) as nat);
        let all = gilrs::departures(pads, found, n);
        assert forall|k: int| 0 <= k < all.len() implies (
        #[trigger] all[k]).event is Disconnected by {
            if k < before.len() {
                assert(all[k] == before[k]);
            }
        }
    }
}

/// A slot is never removed or given to another controller: whatever is listed, a pad
/// keeps its index, its controller, its name and its state.
pub proof fn law_slots_are_kept(g: GilrsView, found: Seq<Sighting>, id: int)
    requires
        0 <= id < g.gamepads.len(),
    ensures
        g.gamepads.len() <= gilrs::reconciled(g, found).gamepads.len(),
        gilrs::reconciled(g, found).gamepads[id] == (GamepadView {
            is_connected: gilrs::shows(found, g.gamepads[id].controller),
            ..g.gamepads[id]
        }),
{
    assert(gilrs::admitted(g.gamepads, found)[id] == g.gamepads[id]);
}

/// Every listed controller with an extended profile has a pad that is connected, and
/// a controller without one never gets a pad.
pub proof fn law_gamepads_have_a_slot(g: GilrsView, found: Seq<Sighting>, controller: usize)
    requires
        g.wf(),
    ensures
        ({
            let pads = gilrs::reconciled(g, found).gamepads;
            &&& gilrs::knows(pads, controller) <==> gilrs::knows(g.gamepads, controller)
                || gilrs::shows(found, controller)
            &&& gilrs::knows(pads, controller) ==> (pads[gilrs::slot(
                pads,
                controller,
            )].is_connected <==> gilrs::shows(found, controller))
        }),
{
    let slots = gilrs::admitted(g.gamepads, found);
    let pads = gilrs::reconciled(g, found).gamepads;
    gilrs::lemma_admitted_knows(g.gamepads, found, controller);
    if gilrs::knows(slots, controller) {
        let i = gilrs::slot(slots, controller);
        assert(pads[i].controller == controller);
    }
    if gilrs::knows(pads, controller) {
        let i = gilrs::slot(pads, controller);
        assert(pads[i].controller == controller);
        assert(slots[i].controller == controller);
    }
}

/// Events that wait are neither lost nor overtaken: new ones go behind them.
pub proof fn law_new_events_go_last(g: GilrsView, found: Seq<Sighting>, live: Seq<Readings>)
    ensures
        g.queue.is_prefix_of(gilrs::reconciled(g, found).queue),
        g.queue.is_prefix_of(gilrs::sampled(g, live).queue),
{
    let queue = g.queue;
    assert(gilrs::reconciled(g, found).queue.take(queue.len() as int) =~= queue);
    assert(gilrs::sampled(g, live).queue.take(queue.len() as int) =~= queue);
}

/// Whether the list shows the pads that are connected, and no other gamepad.
pub open spec fn is_up_to_date(pads: Seq<GamepadView>, found: Seq<Sighting>) -> bool {
    &&& forall|j: int|
        0 <= j < found.len() && (#[trigger] found[j]).profile is Some ==> gilrs::knows(
            pads,
            found[j].controller,
        )
    &&& forall|i: int|
        0 <= i < pads.len() ==> (#[trigger] pads[i]).is_connected == gilrs::shows(
            found,
            pads[i].controller,
        )
}

/// A list that shows the pads that are connected anyway changes nothing and reports
/// nothing.
pub proof fn law_unchanged_list_is_silent(g: GilrsView, found: Seq<Sighting>)
    requires
        g.wf(),
        is_up_to_date(g.gamepads, found),
    ensures
        gilrs::reconciled(g, found) == g,
{
    let pads = g.gamepads;
    lemma_nothing_new(pads, found, found.len() as int);
    assert(found.take(found.len() as int) =~= found);
    lemma_nothing_gone(pads, found, pads.len());
    assert(gilrs::admitted(pads, found) =~= pads);
    assert(gilrs::reconciled(g, found).gamepads =~= pads);
    assert(gilrs::reconciled(g, found).queue =~= g.queue);
}

proof fn lemma_nothing_new(pads: Seq<GamepadView>, found: Seq<Sighting>, k: int)
    requires
        is_up_to_date(pads, found),
        0 <= k <= found.len(),
    ensures
        gilrs::new_positions(pads, found.take(k)) == Seq::<int>::empty(),
        gilrs::arrivals(pads, found.take(k)) == Seq::<Event>::empty(),
    decreases k,
{
    if k > 0 {
        lemma_nothing_new(pads, found, k - 1);
        assert(found.take(k).drop_last() =~= found.take(k - 1));
        let seen = found[k - 1];
        if seen.profile is Some {
            let i = gilrs::slot(pads, seen.controller);
            assert(pads[i].controller == seen.controller);
            assert(gilrs::shows(found, seen.controller));
        }
    }
}

proof fn lemma_nothing_gone(pads: Seq<GamepadView>, found: Seq<Sighting>, n: nat)
    requires
        is_up_to_date(pads, found),
        n <= pads.len(),
    ensures
        gilrs::departures(pads, found, n) == Seq::<Event>::empty(),
    decreases n,
{
    if n > 0 {
        lemma_nothing_gone(pads, found, (n - 1) as nat);
        assert(pads[n - 1].is_connected == gilrs::shows(found, pads[n - 1].controller));
    }
}

/// Reading the same list again changes nothing and reports nothing.
pub proof fn law_reconciling_twice_is_once(g: GilrsView, found: Seq<Sighting>)
    requires
        g.wf(),
    ensures
        gilrs::reconciled(gilrs::reconciled(g, found), found) == gilrs::reconciled(g, found),
{
    let after = gilrs::reconciled(g, found);
    assert forall|j: int|
        0 <= j < found.len() && (#[trigger] found[j]).profile is Some implies gilrs::knows(
        after.gamepads,
        found[j].controller,
    ) by {
        assert(gilrs::shows(found, found[j].controller));
        law_gamepads_have_a_slot(g, found, found[j].controller);
    }
    gilrs::law_reconciling_keeps_wf(g, found);
    law_unchanged_list_is_silent(after, found);
}

/// Whether every connected pad reads as it did before, but for jitter of one count.
pub open spec fn is_at_rest(pads: Seq<GamepadView>, live: Seq<Readings>) -> bool {
    forall|id: int|
        0 <= id < pads.len() && (#[trigger] pads[id]).is_connected ==> changes::indistinct(
            pads[id].state,
            gilrs::reading_of(pads, live, id).state(),
        )
}

/// Pads that nobody touches report nothing, poll after poll: the sticks' jitter does
/// not count.
pub proof fn law_untouched_pads_are_silent(
    g: GilrsView,
    controllers: nat,
    found: Seq<Sighting>,
    live: Seq<Readings>,
)
    requires
        g.wf(),
        is_up_to_date(g.gamepads, found),
        is_at_rest(g.gamepads, live),
    ensures
        gilrs::sampled(gilrs::reconciled(gilrs::listed(g, controllers), found), live).queue
            == g.queue,
{
    let now = gilrs::listed(g, controllers);
    law_unchanged_list_is_silent(now, found);
    lemma_no_activity(g.gamepads, live, g.gamepads.len());
    assert(gilrs::sampled(now, live).queue =~= g.queue);
}

proof fn lemma_no_activity(pads: Seq<GamepadView>, live: Seq<Readings>, n: nat)
    requires
        n <= pads.len(),
        forall|i: int| 0 <= i < pads.len() ==> (#[trigger] pads[i]).state.is_complete(),
        is_at_rest(pads, live),
    ensures
        gilrs::activity(pads, live, n) == Seq::<Event>::empty(),
    decreases n,
{
    if n > 0 {
        let id = n - 1;
        lemma_no_activity(pads, live, id as nat);
        if pads[id].is_connected {
            changes::law_resting_pad_is_silent(
                id as usize,
                pads[id].state,
                gilrs::reading_of(pads, live, id).state(),
            );
            assert(gilrs::activity(pads, live, n) =~= Seq::empty());
        }
    }
}

proof fn lemma_connected_same(a: Seq<GamepadView>, b: Seq<GamepadView>, n: nat)
    requires
        n <= a.len() == b.len(),
        forall|i: int| 0 <= i < a.len() ==> (#[trigger] a[i]).is_connected == b[i].is_connected,
    ensures
        gilrs::connected(a, n) == gilrs::connected(b, n),
    decreases n,
{
    if n > 0 {
        lemma_connected_same(a, b, (n - 1) as nat);
        assert(a[n - 1].is_connected == b[n - 1].is_connected);
    }
}

/// A poll that finds what the last one found changes nothing and reports nothing.
pub proof fn law_same_poll_twice_is_once(
    g: GilrsView,
    controllers: nat,
    found: Seq<Sighting>,
    live: Seq<Readings>,
)
    requires
        g.wf(),
    ensures
        ({
            let once = gilrs::sampled(
                gilrs::reconciled(gilrs::listed(g, controllers), found),
                live,
            );
            gilrs::sampled(gilrs::reconciled(gilrs::listed(once, controllers), found), live)
                == once
        }),
{
    let start = gilrs::listed(g, controllers);
    let middle = gilrs::reconciled(start, found);
    let once = gilrs::sampled(middle, live);
    gilrs::law_reconciling_keeps_wf(start, found);
    gilrs::law_sampling_keeps_wf(middle, live);
    let pads = once.gamepads;
    assert forall|j: int|
        0 <= j < found.len() && (#[trigger] found[j]).profile is Some implies gilrs::knows(
        pads,
        found[j].controller,
    ) by {
        assert(gilrs::shows(found, found[j].controller));
        law_gamepads_have_a_slot(start, found, found[j].controller);
        let i = gilrs::slot(middle.gamepads, found[j].controller);
        assert(middle.gamepads[i].controller == found[j].controller);
        assert(pads[i].controller == found[j].controller);
    }
    law_unchanged_list_is_silent(once, found);
    assert forall|id: int| 0 <= id < pads.len() && (#[trigger] pads[id]).is_connected implies
        gilrs::reading_of(pads, live, id).state() == pads[id].state by {
        lemma_connected_same(pads, middle.gamepads, id as nat);
    }
    lemma_no_activity(pads, live, pads.len());
    assert(gilrs::sampled(once, live).gamepads =~= pads);
    assert(gilrs::sampled(once, live).queue =~= once.queue);
}

/// A button that is held when a pad is first seen does not arrive as a press: a new pad
/// reports nothing as long as it reads as it did when it was found.
pub proof fn law_held_button_is_no_press(
    g: GilrsView,
    found: Seq<Sighting>,
    k: int,
    readings: Readings,
)
    requires
        0 <= k < gilrs::new_positions(g.gamepads, found).len(),
        changes::indistinct(
            found[gilrs::new_positions(g.gamepads, found)[k]].profile->0.readings.state(),
            readings.state(),
        ),
    ensures
        ({
            let id = g.gamepads.len() + k;
            let pad = gilrs::reconciled(g, found).gamepads[id];
            &&& pad.is_connected
            &&& pad.controller == found[gilrs::new_positions(g.gamepads, found)[k]].controller
            &&& changes::changes(id as usize, pad.state, readings.state())
                == Seq::<Event>::empty()
        }),
{
    let id = g.gamepads.len() + k;
    let j = gilrs::new_positions(g.gamepads, found)[k];
    let pad = gilrs::reconciled(g, found).gamepads[id];
    gilrs::lemma_new_positions_bounds(g.gamepads, found);
    assert(gilrs::admitted(g.gamepads, found)[id] == gilrs::newcomer(found[j]));
    assert(gilrs::shows(found, found[j].controller));
    changes::law_resting_pad_is_silent(id as usize, pad.state, readings.state());
}

/// Whether background events are to be switched on.
pub open spec fn is_time_for_background_events(g: GilrsView, controllers: nat) -> bool {
    !g.background_events_set && controllers > 0
}

/// Background events are switched on once, not before there is a controller, and then
/// never again, whatever happens to the pads.
pub proof fn law_background_events_are_switched_on_once(
    g: GilrsView,
    controllers: nat,
    later: nat,
    found: Seq<Sighting>,
    live: Seq<Readings>,
)
    ensures
        !is_time_for_background_events(g, 0),
        controllers > 0 ==> !is_time_for_background_events(gilrs::listed(g, controllers), later),
        is_time_for_background_events(gilrs::listed(g, 0), later)
            == is_time_for_background_events(g, later),
        is_time_for_background_events(gilrs::reconciled(g, found), later)
            == is_time_for_background_events(g, later),
        is_time_for_background_events(gilrs::sampled(g, live), later)
            == is_time_for_background_events(g, later),
{
}

/// Whether the reply is of the kind that the request asks for.
pub open spec fn answers(reply: PollReply, request: PollRequest) -> bool {
    match request {
        PollRequest::Turn { turns } => reply matches PollReply::Turned { turns: before, serviced }
            && before == turns,
        PollRequest::List => reply is Listed,
        PollRequest::SwitchOnBackgroundEvents => reply is SwitchedOn,
        PollRequest::Describe => reply is Described,
        PollRequest::Read { new, ids } => reply is Read,
        PollRequest::Done => false,
    }
}

/// How many more requests a poll can make after this one.
pub open spec fn requests_left(request: PollRequest) -> int {
    match request {
        PollRequest::Turn { turns } => 4 + pump::TURN_LIMIT - turns,
        PollRequest::List => 4,
        PollRequest::SwitchOnBackgroundEvents => 3,
        PollRequest::Describe => 2,
        PollRequest::Read { new, ids } => 1,
        PollRequest::Done => 0,
    }
}

/// A poll comes to an end, however the run loop and the framework answer: each request
/// leaves fewer to be made than the one before.
pub proof fn law_poll_ends(
    g: GilrsView,
    request: PollRequest,
    reply: PollReply,
    next: PollRequest,
)
    requires
        request matches PollRequest::Turn { turns } ==> turns < pump::TURN_LIMIT,
        answers(reply, request),
        gilrs::follows(next, g, reply),
    ensures
        next matches PollRequest::Turn { turns } ==> turns < pump::TURN_LIMIT,
        0 <= requests_left(next) < requests_left(request),
{
}

/// The turns that a poll asks for are those of [`pump::turns_taken`], when turn `k`
/// reports `serviced[k]`: after each turn but the last one it asks for another, and
/// after the last one for the list of controllers.
pub proof fn law_poll_drains_the_run_loop(
    g: GilrsView,
    serviced: Seq<bool>,
    k: nat,
    next: PollRequest,
)
    requires
        serviced.len() >= pump::TURN_LIMIT,
        k < pump::turns_taken(serviced, 0),
        gilrs::follows(
            next,
            g,
            (PollReply::Turned { turns: k as u32, serviced: serviced[k as int] }),
        ),
    ensures
        next is Turn <==> k + 1 < pump::turns_taken(serviced, 0),
        next is Turn ==> next == (PollRequest::Turn { turns: (k + 1) as u32 }),
        next is List <==> k + 1 == pump::turns_taken(serviced, 0),
        k < pump::TURN_LIMIT,
{
    pump::law_drain_is_bounded(serviced);
}

} // verus!

//! What a poll promises of the pads before and after it, pad by pad and event by event.
//!
//! The statements here speak of what was given and what came of it, and of nothing in
//! between: which pads there are and which of them are connected, which events were
//! added, of which pad, and in which order.

use crate::changes;
use crate::event::{Event, EventType};
use crate::gamepad;
use crate::gamepad::GamepadView;
use crate::gilrs;
use crate::gilrs::{GilrsView, PollReply, PollRequest, Sighting};
use crate::native_ev_codes;
use crate::state::{Readings, StateView};
use vstd::prelude::*;

verus! {

/// Whether `ids` are the indices of the connected pads, each once, in ascending order.
pub open spec fn is_roll(pads: Seq<GamepadView>, ids: Seq<usize>) -> bool {
    &&& forall|k: int|
        0 <= k < ids.len() ==> (#[trigger] ids[k]) < pads.len() && pads[ids[k] as int].is_connected
    &&& forall|i: int|
        0 <= i < pads.len() && (#[trigger] pads[i]).is_connected ==> exists|k: int|
            0 <= k < ids.len() && #[trigger] ids[k] == i
    &&& forall|j: int, k: int| 0 <= j < k < ids.len() ==> (#[trigger] ids[j]) < (#[trigger] ids[k])
}

/// The events of one pad, in the order in which they came.
pub open spec fn of_pad(events: Seq<Event>, id: usize) -> Seq<Event> {
    events.filter(|event: Event| event.id == id)
}

/// The events that were added behind the ones that waited.
pub open spec fn added(before: GilrsView, after: GilrsView) -> Seq<Event> {
    after.queue.skip(before.queue.len() as int)
}

/// Whether `after` is what a new reading of the connected pads makes of `before`. The
/// connected pads have the states that were read, in ascending order of their indices;
/// nothing else of any pad is touched. The events that waited still do, and behind them
/// stands for each connected pad a full account of what happened to it, pad after pad in
/// ascending order.
pub open spec fn is_sampling(before: GilrsView, live: Seq<Readings>, after: GilrsView) -> bool {
    let pads = before.gamepads;
    let ids = gilrs::connected(pads, pads.len());
    let new = added(before, after);
    &&& after.background_events_set == before.background_events_set
    &&& after.gamepads.len() == pads.len()
    &&& forall|i: int|
        0 <= i < pads.len() ==> {
            &&& (#[trigger] after.gamepads[i]).controller == pads[i].controller
            &&& after.gamepads[i].name == pads[i].name
            &&& after.gamepads[i].is_connected == pads[i].is_connected
            &&& !pads[i].is_connected ==> after.gamepads[i].state == pads[i].state
        }
    &&& is_roll(pads, ids)
    &&& forall|k: int|
        0 <= k < ids.len() ==> after.gamepads[#[trigger] ids[k] as int].state == live[k].state()
    &&& before.queue.is_prefix_of(after.queue)
    &&& forall|i: int|
        0 <= i < pads.len() && (#[trigger] pads[i]).is_connected ==> changes::is_account(
            i as usize,
            pads[i].state,
            after.gamepads[i].state,
            of_pad(new, i as usize),
        )
    &&& forall|k: int|
        0 <= k < new.len() ==> (#[trigger] new[k]).id < pads.len()
            && pads[new[k].id as int].is_connected
    &&& forall|j: int, k: int|
        0 <= j < k < new.len() ==> (#[trigger] new[j]).id <= (#[trigger] new[k]).id
}

/// Whether entry `j` of the list is the controller, with an extended profile.
pub open spec fn lists(found: Seq<Sighting>, j: int, controller: usize) -> bool {
    0 <= j < found.len() && found[j].profile is Some && found[j].controller == controller
}

/// Whether entry `j` is the first of its controller that has an extended profile.
pub open spec fn leads(found: Seq<Sighting>, j: int) -> bool {
    &&& lists(found, j, found[j].controller)
    &&& forall|i: int| 0 <= i < j ==> !#[trigger] lists(found, i, found[j].controller)
}

/// Whether the pads that there were are still there, under their indices and as they
/// were, and each is connected if and only if its controller is listed.
pub open spec fn keeps_slots(before: GilrsView, found: Seq<Sighting>, after: GilrsView) -> bool {
    &&& after.gamepads.len() >= before.gamepads.len()
    &&& forall|i: int|
        0 <= i < before.gamepads.len() ==> {
            &&& (#[trigger] after.gamepads[i]).controller == before.gamepads[i].controller
            &&& after.gamepads[i].name == before.gamepads[i].name
            &&& after.gamepads[i].state == before.gamepads[i].state
            &&& after.gamepads[i].is_connected <==> exists|j: int|
                #[trigger] lists(found, j, before.gamepads[i].controller)
        }
}

/// Whether the pad is what the entry of the list says of it: its vendor's name where it
/// has one, the state that it reads as, and connected.
pub open spec fn is_described(pad: GamepadView, seen: Sighting) -> bool {
    &&& seen.profile is Some
    &&& pad.controller == seen.controller
    &&& pad.is_connected
    &&& pad.state == seen.profile->0.readings.state()
    &&& seen.profile->0.vendor_name is Some ==> pad.name == seen.profile->0.vendor_name->0@
    &&& seen.profile->0.vendor_name is None ==> pad.name == "Unknown Controller"@
}

/// Whether the new slots belong to the listed controllers that had none, each to one, in
/// the order in which they are listed first. `new` are the places where they are.
pub open spec fn admits(
    before: GilrsView,
    found: Seq<Sighting>,
    after: GilrsView,
    new: Seq<int>,
) -> bool {
    let n = before.gamepads.len();
    &&& after.gamepads.len() == n + new.len()
    &&& forall|k: int|
        0 <= k < new.len() ==> leads(found, #[trigger] new[k]) && is_described(
            after.gamepads[n + k],
            found[new[k]],
        )
    &&& forall|k: int, i: int|
        0 <= k < new.len() && 0 <= i < n ==> found[#[trigger] new[k]].controller != (
        #[trigger] before.gamepads[i]).controller
    &&& forall|j: int, k: int| 0 <= j < k < new.len() ==> (#[trigger] new[j]) < (#[trigger] new[k])
    &&& forall|j: int|
        #[trigger] leads(found, j) ==> exists|i: int|
            0 <= i < after.gamepads.len() && (#[trigger] after.gamepads[i]).controller
                == found[j].controller
}

/// Whether pad `i` is connected and was not before.
pub open spec fn appeared(before: GilrsView, after: GilrsView, i: int) -> bool {
    &&& 0 <= i < after.gamepads.len()
    &&& after.gamepads[i].is_connected
    &&& i >= before.gamepads.len() || !before.gamepads[i].is_connected
}

/// Whether pad `i` was connected and is no longer.
pub open spec fn disappeared(before: GilrsView, after: GilrsView, i: int) -> bool {
    &&& 0 <= i < before.gamepads.len()
    &&& before.gamepads[i].is_connected
    &&& !after.gamepads[i].is_connected
}

/// Whether the events that were added are one for each pad that appeared, in the order in
/// which their controllers are listed first, and behind them one for each pad that
/// disappeared, in ascending order.
pub open spec fn reports_connections(
    before: GilrsView,
    found: Seq<Sighting>,
    after: GilrsView,
) -> bool {
    let new = added(before, after);
    &&& before.queue.is_prefix_of(after.queue)
    &&& forall|k: int|
        0 <= k < new.len() ==> match (#[trigger] new[k]).event {
            EventType::Connected => appeared(before, after, new[k].id as int),
            EventType::Disconnected => disappeared(before, after, new[k].id as int),
            _ => false,
        }
    &&& forall|i: int| #[trigger]
        appeared(before, after, i) ==> exists|k: int|
            0 <= k < new.len() && (#[trigger] new[k]).id == i && new[k].event is Connected
    &&& forall|i: int| #[trigger]
        disappeared(before, after, i) ==> exists|k: int|
            0 <= k < new.len() && (#[trigger] new[k]).id == i && new[k].event is Disconnected
    &&& forall|j: int, k: int|
        0 <= j < k < new.len() ==> (#[trigger] new[j]).id != (#[trigger] new[k]).id
    &&& forall|j: int, k: int|
        0 <= j < k < new.len() && (#[trigger] new[j]).event is Disconnected ==> (
        #[trigger] new[k]).event is Disconnected && new[j].id < new[k].id
    &&& forall|j: int, k: int, p: int, q: int|
        0 <= j < k < new.len() && (#[trigger] new[j]).event is Connected && (
        #[trigger] new[k]).event is Connected && #[trigger] leads(found, p) && #[trigger] leads(
            found,
            q,
        ) && found[p].controller == after.gamepads[new[j].id as int].controller
            && found[q].controller == after.gamepads[new[k].id as int].controller ==> p < q
}

/// Whether `after` is what the list of controllers makes of `before`, where the entries
/// `new` of the list got the new slots.
pub open spec fn is_lined_up(
    before: GilrsView,
    found: Seq<Sighting>,
    after: GilrsView,
    new: Seq<int>,
) -> bool {
    &&& after.background_events_set == before.background_events_set
    &&& keeps_slots(before, found, after)
    &&& admits(before, found, after, new)
    &&& reports_connections(before, found, after)
}

/// Whether a step of a poll, which took the reply, did to the pads what it has to and made
/// the right request.
pub open spec fn is_poll_step(
    before: GilrsView,
    reply: PollReply,
    after: GilrsView,
    request: PollRequest,
) -> bool {
    match reply {
        PollReply::Start => after == before && request == (PollRequest::Turn { turns: 0 }),
        PollReply::Turned { turns, serviced } => after == before && if serviced && turns < 63 {
            request == (PollRequest::Turn { turns: (turns + 1) as u32 })
        } else {
            request is List
        },
        PollReply::Listed(controllers) => {
            &&& after.gamepads == before.gamepads
            &&& after.queue == before.queue
            &&& after.background_events_set <==> before.background_events_set || controllers > 0
            &&& request is SwitchOnBackgroundEvents <==> !before.background_events_set
                && controllers > 0
            &&& request is Describe <==> before.background_events_set || controllers == 0
        },
        PollReply::SwitchedOn => after == before && request is Describe,
        PollReply::Described(found) => request matches PollRequest::Read { new, ids }
            && is_lined_up(before, found@, after, new@.map_values(|j: usize| j as int)) && is_roll(
            after.gamepads,
            ids@,
        ),
        PollReply::Read(live) => is_sampling(before, live@, after) && request is Done,
    }
}

proof fn lemma_filter_all(events: Seq<Event>, id: usize)
    requires
        forall|k: int| 0 <= k < events.len() ==> (#[trigger] events[k]).id == id,
    ensures
        of_pad(events, id) == events,
    decreases events.len(),
{
    reveal(Seq::filter);
    if events.len() > 0 {
        let front = events.drop_last();
        assert forall|k: int| 0 <= k < front.len() implies (#[trigger] front[k]).id == id by {
            assert(front[k] == events[k]);
        }
        lemma_filter_all(front, id);
        assert(events.last() == events[events.len() - 1]);
        assert(events =~= front.push(events.last()));
    } else {
        assert(of_pad(events, id) =~= events);
    }
}

proof fn lemma_filter_none(events: Seq<Event>, id: usize)
    requires
        forall|k: int| 0 <= k < events.len() ==> (#[trigger] events[k]).id != id,
    ensures
        of_pad(events, id) == Seq::<Event>::empty(),
    decreases events.len(),
{
    reveal(Seq::filter);
    if events.len() > 0 {
        let front = events.drop_last();
        assert forall|k: int| 0 <= k < front.len() implies (#[trigger] front[k]).id != id by {
            assert(front[k] == events[k]);
        }
        lemma_filter_none(front, id);
        assert(events.last() == events[events.len() - 1]);
    }
}

/// [`gilrs::connected`] is the roll of the first `n` pads, and pad `i` stands in it behind
/// the connected pads before it.
proof fn lemma_roll(pads: Seq<GamepadView>, n: nat)
    requires
        n <= pads.len() <= usize::MAX,
    ensures
        ({
            let ids = gilrs::connected(pads, n);
            &&& forall|k: int|
                0 <= k < ids.len() ==> (#[trigger] ids[k]) < n && pads[ids[k] as int].is_connected
                    && gilrs::connected(pads, ids[k] as nat).len() == k
            &&& forall|i: int|
                0 <= i < n && (#[trigger] pads[i]).is_connected ==> {
                    let k = gilrs::connected(pads, i as nat).len() as int;
                    k < ids.len() && ids[k] == i
                }
            &&& forall|j: int, k: int|
                0 <= j < k < ids.len() ==> (#[trigger] ids[j]) < (#[trigger] ids[k])
        }),
    decreases n,
{
    if n > 0 {
        lemma_roll(pads, (n - 1) as nat);
        let before = gilrs::connected(pads, (n - 1) as nat);
        let ids = gilrs::connected(pads, n);
        assert forall|k: int| 0 <= k < before.len() implies ids[k] == #[trigger] before[k] by {
        }
    }
}

/// The pads that a poll has to read are the connected ones, each once and in ascending
/// order.
pub proof fn law_connected_is_the_roll(pads: Seq<GamepadView>)
    requires
        pads.len() <= usize::MAX,
    ensures
        is_roll(pads, gilrs::connected(pads, pads.len())),
{
    lemma_roll(pads, pads.len());
    let ids = gilrs::connected(pads, pads.len());
    assert forall|i: int| 0 <= i < pads.len() && (#[trigger] pads[i]).is_connected implies exists|
        k: int,
    |
        0 <= k < ids.len() && #[trigger] ids[k] == i by {
        let k = gilrs::connected(pads, i as nat).len() as int;
        assert(ids[k] == i);
    }
}

proof fn lemma_ids_of_changes(id: usize, was: StateView, now: StateView)
    ensures
        forall|k: int|
            0 <= k < changes::changes(id, was, now).len() ==> (#[trigger] changes::changes(
                id,
                was,
                now,
            )[k]).id == id,
{
    changes::law_changes_are_an_account(id, was, now);
}

/// The events that a reading of the first `n` pads adds are of connected ones among them,
/// in ascending order.
proof fn lemma_activity_order(pads: Seq<GamepadView>, live: Seq<Readings>, n: nat)
    requires
        n <= pads.len() <= usize::MAX,
    ensures
        ({
            let events = gilrs::activity(pads, live, n);
            &&& forall|k: int|
                0 <= k < events.len() ==> (#[trigger] events[k]).id < n
                    && pads[events[k].id as int].is_connected
            &&& forall|j: int, k: int|
                0 <= j < k < events.len() ==> (#[trigger] events[j]).id <= (#[trigger] events[k]).id
        }),
    decreases n,
{
    if n > 0 {
        let m = n - 1;
        lemma_activity_order(pads, live, m as nat);
        let before = gilrs::activity(pads, live, m as nat);
        let events = gilrs::activity(pads, live, n);
        if pads[m].is_connected {
            let now = gilrs::reading_of(pads, live, m).state();
            let moves = changes::changes(m as usize, pads[m].state, now);
            lemma_ids_of_changes(m as usize, pads[m].state, now);
            assert(events == before + moves);
            assert forall|k: int| 0 <= k < events.len() implies (#[trigger] events[k]).id < n
                && pads[events[k].id as int].is_connected by {
                if k < before.len() {
                    assert(events[k] == before[k]);
                } else {
                    assert(events[k] == moves[k - before.len()]);
                }
            }
            assert forall|j: int, k: int| 0 <= j < k < events.len() implies (
            #[trigger] events[j]).id <= (#[trigger] events[k]).id by {
                if k < before.len() {
                    assert(events[j] == before[j] && events[k] == before[k]);
                } else {
                    assert(events[k] == moves[k - before.len()]);
                }
            }
        }
    }
}

/// The events of a connected pad are its changes.
proof fn lemma_activity(pads: Seq<GamepadView>, live: Seq<Readings>, n: nat, id: int)
    requires
        n <= pads.len() <= usize::MAX,
        0 <= id < pads.len(),
    ensures
        of_pad(gilrs::activity(pads, live, n), id as usize) == if id < n && pads[id].is_connected {
            changes::changes(
                id as usize,
                pads[id].state,
                gilrs::reading_of(pads, live, id).state(),
            )
        } else {
            Seq::empty()
        },
    decreases n,
{
    if n == 0 {
        lemma_filter_none(Seq::empty(), id as usize);
    } else {
        let m = n - 1;
        lemma_activity(pads, live, m as nat, id);
        let before = gilrs::activity(pads, live, m as nat);
        let events = gilrs::activity(pads, live, n);
        if pads[m].is_connected {
            let now = gilrs::reading_of(pads, live, m).state();
            let moves = changes::changes(m as usize, pads[m].state, now);
            lemma_ids_of_changes(m as usize, pads[m].state, now);
            assert(events == before + moves);
            Seq::<Event>::filter_distributes_over_add(
                before,
                moves,
                |event: Event| event.id == id as usize,
            );
            if id == m {
                lemma_filter_all(moves, id as usize);
                assert(of_pad(events, id as usize) =~= moves);
            } else {
                lemma_filter_none(moves, id as usize);
                assert(of_pad(events, id as usize) =~= of_pad(before, id as usize));
            }
        }
    }
}

/// A new reading of the connected pads does what [`is_sampling`] says.
pub proof fn law_sampling(g: GilrsView, live: Seq<Readings>)
    requires
        g.gamepads.len() <= usize::MAX,
    ensures
        is_sampling(g, live, gilrs::sampled(g, live)),
{
    let pads = g.gamepads;
    let after = gilrs::sampled(g, live);
    let events = gilrs::activity(pads, live, pads.len());
    assert(after.queue =~= g.queue + events);
    assert(added(g, after) =~= events);
    assert(after.queue.subrange(0, g.queue.len() as int) =~= g.queue);
    lemma_roll(pads, pads.len());
    law_connected_is_the_roll(pads);
    assert forall|i: int|
        0 <= i < pads.len() && (#[trigger] pads[i]).is_connected implies changes::is_account(
        i as usize,
        pads[i].state,
        after.gamepads[i].state,
        of_pad(events, i as usize),
    ) by {
        lemma_activity(pads, live, pads.len(), i);
        changes::law_changes_are_an_account(
            i as usize,
            pads[i].state,
            gilrs::reading_of(pads, live, i).state(),
        );
    }
    lemma_activity_order(pads, live, pads.len());
}

/// Whoever knew the state of every connected pad, and takes the events that a reading adds
/// into account, knows the new states: of each pad every button exactly, and every axis to
/// within one count.
pub proof fn law_added_events_tell_the_new_states(g: GilrsView, live: Seq<Readings>, id: int)
    requires
        g.wf(),
        g.gamepads.len() <= usize::MAX,
        0 <= id < g.gamepads.len(),
        g.gamepads[id].is_connected,
    ensures
        ({
            let after = gilrs::sampled(g, live);
            let told = changes::replay(
                g.gamepads[id].state,
                of_pad(added(g, after), id as usize),
            );
            &&& told.buttons == after.gamepads[id].state.buttons
            &&& told.axes.len() == 6 == after.gamepads[id].state.axes.len()
            &&& forall|i: int|
                0 <= i < 6 ==> -1 <= (#[trigger] told.axes[i])
                    - after.gamepads[id].state.axes[i] <= 1
        }),
{
    let pads = g.gamepads;
    let after = gilrs::sampled(g, live);
    let events = gilrs::activity(pads, live, pads.len());
    assert(added(g, after) =~= events);
    lemma_activity(pads, live, pads.len(), id);
    let now = gilrs::reading_of(pads, live, id).state();
    changes::law_changes_tell_the_new_state(id as usize, pads[id].state, now);
    let told = changes::replay(pads[id].state, of_pad(events, id as usize));
    assert forall|i: int| 0 <= i < 6 implies -1 <= (#[trigger] told.axes[i]) - now.axes[i]
        <= 1 by {
        assert(!changes::moved(told.axes[i], now.axes[i]));
    }
}

proof fn lemma_shows(found: Seq<Sighting>, controller: usize)
    ensures
        gilrs::shows(found, controller) <==> exists|j: int| #[trigger]
            lists(found, j, controller),
{
    if gilrs::shows(found, controller) {
        let j = choose|j: int|
            0 <= j < found.len() && (#[trigger] found[j]).controller == controller
                && found[j].profile is Some;
        assert(lists(found, j, controller));
    }
    if exists|j: int| #[trigger] lists(found, j, controller) {
        let j = choose|j: int| #[trigger] lists(found, j, controller);
        assert(found[j].controller == controller);
    }
}

/// An entry leads a list if and only if it leads the list without the last entry, or is
/// the last one and its controller is not shown before.
proof fn lemma_leads_step(found: Seq<Sighting>, j: int)
    requires
        found.len() > 0,
    ensures
        ({
            let earlier = found.drop_last();
            leads(found, j) <==> if j == found.len() - 1 {
                found.last().profile is Some && !gilrs::shows(earlier, found.last().controller)
            } else {
                leads(earlier, j)
            }
        }),
{
    let earlier = found.drop_last();
    let c = found[j].controller;
    assert forall|i: int| 0 <= i < earlier.len() implies #[trigger] lists(found, i, c) == lists(
        earlier,
        i,
        c,
    ) by {
        assert(found[i] == earlier[i]);
    }
    lemma_shows(earlier, c);
    if j == found.len() - 1 {
        assert(found.last() == found[j]);
        if gilrs::shows(earlier, c) {
            let i = choose|i: int| #[trigger] lists(earlier, i, c);
            assert(lists(found, i, c));
        }
    } else if 0 <= j < earlier.len() {
        assert(found[j] == earlier[j]);
        assert forall|i: int| 0 <= i < j implies #[trigger] lists(found, i, c) == lists(
            earlier,
            i,
            c,
        ) by {
        }
        if leads(found, j) {
            assert forall|i: int| 0 <= i < j implies !#[trigger] lists(
                earlier,
                i,
                earlier[j].controller,
            ) by {
                assert(!lists(found, i, c));
            }
        }
        if leads(earlier, j) {
            assert forall|i: int| 0 <= i < j implies !#[trigger] lists(found, i, c) by {
                assert(!lists(earlier, i, c));
            }
        }
    }
}

proof fn lemma_new_positions(pads: Seq<GamepadView>, found: Seq<Sighting>)
    ensures
        ({
            let new = gilrs::new_positions(pads, found);
            &&& forall|k: int|
                0 <= k < new.len() ==> leads(found, #[trigger] new[k]) && new[k] < found.len()
                    && !gilrs::knows(pads, found[new[k]].controller)
            &&& forall|j: int, k: int|
                0 <= j < k < new.len() ==> (#[trigger] new[j]) < (#[trigger] new[k])
        }),
    decreases found.len(),
{
    if found.len() > 0 {
        let earlier = found.drop_last();
        lemma_new_positions(pads, earlier);
        let before = gilrs::new_positions(pads, earlier);
        let new = gilrs::new_positions(pads, found);
        assert forall|k: int| 0 <= k < new.len() implies leads(found, #[trigger] new[k]) && new[k]
            < found.len() && !gilrs::knows(pads, found[new[k]].controller) by {
            lemma_leads_step(found, new[k]);
            if k < before.len() {
                assert(new[k] == before[k]);
                assert(leads(earlier, before[k]));
                assert(found[new[k]] == earlier[new[k]]);
            } else {
                assert(new[k] == found.len() - 1);
                assert(found.last() == found[new[k]]);
            }
        }
        assert forall|j: int, k: int| 0 <= j < k < new.len() implies (#[trigger] new[j]) < (
        #[trigger] new[k]) by {
            assert(new[j] == before[j]);
            assert(leads(earlier, before[j]));
            if k < before.len() {
                assert(new[k] == before[k]);
            }
        }
    }
}

/// What [`gilrs::arrivals`] holds: an event for each pad that is listed and was not
/// connected, in the order of the first entries of the list.
proof fn lemma_arrivals(pads: Seq<GamepadView>, found: Seq<Sighting>)
    requires
        gilrs::distinct(pads),
        gilrs::admitted(pads, found).len() <= usize::MAX,
    ensures
        ({
            let slots = gilrs::admitted(pads, found);
            let events = gilrs::arrivals(pads, found);
            &&& forall|k: int|
                0 <= k < events.len() ==> {
                    &&& (#[trigger] events[k]).event is Connected
                    &&& events[k].id < slots.len()
                    &&& gilrs::shows(found, slots[events[k].id as int].controller)
                    &&& events[k].id >= pads.len() || !pads[events[k].id as int].is_connected
                }
            &&& forall|i: int|
                0 <= i < slots.len() && gilrs::shows(found, (#[trigger] slots[i]).controller) && (i
                    >= pads.len() || !pads[i].is_connected) ==> exists|k: int|
                    0 <= k < events.len() && (#[trigger] events[k]).id == i
            &&& forall|j: int, k: int, p: int, q: int|
                0 <= j < k < events.len() && #[trigger] leads(found, p) && #[trigger] leads(
                    found,
                    q,
                ) && found[p].controller == slots[(#[trigger] events[j]).id as int].controller
                    && found[q].controller == slots[(#[trigger] events[k]).id as int].controller
                    ==> p < q
            &&& forall|j: int, k: int|
                0 <= j < k < events.len() ==> (#[trigger] events[j]).id != (#[trigger] events[k]).id
        }),
    decreases found.len(),
{
    let slots = gilrs::admitted(pads, found);
    let events = gilrs::arrivals(pads, found);
    if found.len() == 0 {
        assert(events.len() == 0);
    } else {
        let earlier = found.drop_last();
        let seen = found.last();
        let c = seen.controller;
        gilrs::lemma_admitted_step(pads, found);
        gilrs::lemma_admitted_distinct(pads, earlier);
        gilrs::lemma_admitted_distinct(pads, found);
        gilrs::lemma_admitted_knows(pads, earlier, c);
        gilrs::lemma_admitted_knows(pads, found, c);
        lemma_arrivals(pads, earlier);
        let old_slots = gilrs::admitted(pads, earlier);
        let before = gilrs::arrivals(pads, earlier);
        assert forall|i: int| 0 <= i < old_slots.len() implies slots[i]
            == #[trigger] old_slots[i] by {
        }
        assert forall|x: usize| #[trigger]
            gilrs::shows(found, x) == (gilrs::shows(earlier, x) || (c == x
                && seen.profile is Some)) by {
            gilrs::lemma_shows_step(found, x);
        }
        // The slot of the last entry, where it is a gamepad.
        let id = gilrs::slot(slots, c);
        if seen.profile is Some {
            assert(gilrs::knows(slots, c));
            assert(slots[id].controller == c);
            gilrs::lemma_slot(slots, id);
            if id < pads.len() {
                assert(pads[id] == slots[id]);
                gilrs::lemma_slot(pads, id);
            } else if gilrs::knows(pads, c) {
                let i = gilrs::slot(pads, c);
                assert(slots[i].controller == c);
            }
        }
        let is_connected = gilrs::knows(pads, c) && pads[gilrs::slot(pads, c)].is_connected;
        let adds = seen.profile is Some && !is_connected && !gilrs::shows(earlier, c);
        assert(events == if adds {
            before.push(Event { id: id as usize, event: EventType::Connected })
        } else {
            before
        });
        assert forall|k: int| 0 <= k < before.len() implies events[k] == #[trigger] before[k] by {
        }
        if gilrs::knows(pads, c) {
            assert(pads[gilrs::slot(pads, c)].controller == c);
        }
        assert forall|i: int|
            0 <= i < slots.len() && gilrs::shows(found, (#[trigger] slots[i]).controller) && (i
                >= pads.len() || !pads[i].is_connected) implies exists|k: int|
            0 <= k < events.len() && (#[trigger] events[k]).id == i by {
            if i < old_slots.len() && gilrs::shows(earlier, old_slots[i].controller) {
                assert(old_slots[i] == slots[i]);
                let k = choose|k: int| 0 <= k < before.len() && (#[trigger] before[k]).id == i;
                assert(events[k].id == i);
            } else {
                if i >= old_slots.len() {
                    assert(slots[i] == gilrs::newcomer(seen));
                }
                assert(slots[i].controller == c);
                gilrs::lemma_slot(slots, i);
                assert(i == id);
                if i >= old_slots.len() {
                    assert(!gilrs::shows(earlier, c));
                }
                assert(adds);
                assert(events[before.len() as int].id == i);
            }
        }
        assert forall|j: int, k: int, p: int, q: int|
            0 <= j < k < events.len() && #[trigger] leads(found, p) && #[trigger] leads(found, q)
                && found[p].controller == slots[(#[trigger] events[j]).id as int].controller
                && found[q].controller == slots[(
            #[trigger] events[k]).id as int].controller implies p < q by {
            lemma_leads_step(found, p);
            lemma_leads_step(found, q);
            assert(events[j] == before[j]);
            let i = before[j].id as int;
            assert(slots[i] == old_slots[i]);
            assert(gilrs::shows(earlier, slots[i].controller));
            assert(p != found.len() - 1) by {
                if p == found.len() - 1 {
                    assert(found[p] == seen);
                }
            }
            assert(leads(earlier, p));
            if k < before.len() {
                assert(events[k] == before[k]);
                let m = before[k].id as int;
                assert(slots[m] == old_slots[m]);
                assert(gilrs::shows(earlier, slots[m].controller));
                assert(q != found.len() - 1) by {
                    if q == found.len() - 1 {
                        assert(found[q] == seen);
                    }
                }
                assert(leads(earlier, q));
                assert(found[p] == earlier[p] && found[q] == earlier[q]);
            } else {
                assert(events[k].id == id);
                assert(found[q].controller == c);
                if q != found.len() - 1 {
                    assert(leads(earlier, q));
                    assert(earlier[q] == found[q]);
                    assert(lists(earlier, q, c));
                    lemma_shows(earlier, c);
                }
            }
        }
        assert forall|j: int, k: int| 0 <= j < k < events.len() implies (#[trigger] events[j]).id
            != (#[trigger] events[k]).id by {
            assert(events[j] == before[j]);
            if k < before.len() {
                assert(events[k] == before[k]);
            } else {
                let i = before[j].id as int;
                assert(slots[i] == old_slots[i]);
            }
        }
    }
}

/// What [`gilrs::departures`] holds: an event for each pad that was connected and is not
/// listed, in ascending order.
proof fn lemma_departures(pads: Seq<GamepadView>, found: Seq<Sighting>, n: nat)
    requires
        n <= pads.len() <= usize::MAX,
    ensures
        ({
            let events = gilrs::departures(pads, found, n);
            &&& forall|k: int|
                0 <= k < events.len() ==> {
                    &&& (#[trigger] events[k]).event is Disconnected
                    &&& events[k].id < n
                    &&& pads[events[k].id as int].is_connected
                    &&& !gilrs::shows(found, pads[events[k].id as int].controller)
                }
            &&& forall|i: int|
                0 <= i < n && (#[trigger] pads[i]).is_connected && !gilrs::shows(
                    found,
                    pads[i].controller,
                ) ==> exists|k: int| 0 <= k < events.len() && (#[trigger] events[k]).id == i
            &&& forall|j: int, k: int|
                0 <= j < k < events.len() ==> (#[trigger] events[j]).id < (#[trigger] events[k]).id
        }),
    decreases n,
{
    if n > 0 {
        let m = n - 1;
        lemma_departures(pads, found, m as nat);
        let before = gilrs::departures(pads, found, m as nat);
        let events = gilrs::departures(pads, found, n);
        assert forall|k: int| 0 <= k < before.len() implies events[k] == #[trigger] before[k] by {
        }
        assert forall|i: int|
            0 <= i < n && (#[trigger] pads[i]).is_connected && !gilrs::shows(
                found,
                pads[i].controller,
            ) implies exists|k: int| 0 <= k < events.len() && (#[trigger] events[k]).id == i by {
            if i < m {
                let k = choose|k: int| 0 <= k < before.len() && (#[trigger] before[k]).id == i;
                assert(events[k].id == i);
            } else {
                assert(events[before.len() as int].id == i);
            }
        }
    }
}

/// Reading the list of controllers does what [`is_lined_up`] says.
pub proof fn law_lining_up(g: GilrsView, found: Seq<Sighting>)
    requires
        g.wf(),
        gilrs::reconciled(g, found).gamepads.len() <= usize::MAX,
    ensures
        is_lined_up(
            g,
            found,
            gilrs::reconciled(g, found),
            gilrs::new_positions(g.gamepads, found),
        ),
{
    let pads = g.gamepads;
    let n = pads.len();
    let slots = gilrs::admitted(pads, found);
    let after = gilrs::reconciled(g, found);
    let new = gilrs::new_positions(pads, found);
    let a = gilrs::arrivals(pads, found);
    let d = gilrs::departures(pads, found, n);
    lemma_new_positions(pads, found);
    lemma_arrivals(pads, found);
    lemma_departures(pads, found, n);
    gilrs::law_reconciling_keeps_wf(g, found);
    assert forall|i: int| 0 <= i < n implies slots[i] == #[trigger] pads[i] by {
    }
    assert forall|k: int| 0 <= k < new.len() implies slots[n + k] == gilrs::newcomer(
        found[#[trigger] new[k]],
    ) by {
    }
    assert forall|i: int| 0 <= i < slots.len() implies (#[trigger] after.gamepads[i]).controller
        == slots[i].controller && after.gamepads[i].name == slots[i].name
        && after.gamepads[i].state == slots[i].state && after.gamepads[i].is_connected
        == gilrs::shows(found, slots[i].controller) by {
    }
    assert(keeps_slots(g, found, after)) by {
        assert forall|i: int| 0 <= i < n implies (
        #[trigger] after.gamepads[i]).is_connected <==> exists|j: int|
            #[trigger] lists(found, j, pads[i].controller) by {
            lemma_shows(found, pads[i].controller);
            assert(slots[i] == pads[i]);
        }
    }
    assert(admits(g, found, after, new)) by {
        assert forall|k: int| 0 <= k < new.len() implies leads(found, #[trigger] new[k])
            && is_described(after.gamepads[n + k], found[new[k]]) by {
            let seen = found[new[k]];
            assert(slots[n + k] == gilrs::newcomer(seen));
            assert(lists(found, new[k], seen.controller));
            lemma_shows(found, seen.controller);
            gamepad::law_vendor_name_is_kept(seen.profile->0.vendor_name);
        }
        assert forall|k: int, i: int| 0 <= k < new.len() && 0 <= i < n implies found[
        #[trigger] new[k]].controller != (#[trigger] pads[i]).controller by {
            assert(!gilrs::knows(pads, found[new[k]].controller));
        }
        assert forall|j: int| #[trigger] leads(found, j) implies exists|i: int|
            0 <= i < after.gamepads.len() && (#[trigger] after.gamepads[i]).controller
                == found[j].controller by {
            let c = found[j].controller;
            assert(lists(found, j, c));
            lemma_shows(found, c);
            gilrs::lemma_admitted_knows(pads, found, c);
            let i = gilrs::slot(slots, c);
            assert(slots[i].controller == c);
            assert(after.gamepads[i].controller == c);
        }
    }
    let events = added(g, after);
    assert(after.queue =~= g.queue + a + d);
    assert(events =~= a + d);
    assert(after.queue.subrange(0, g.queue.len() as int) =~= g.queue);
    assert forall|k: int| 0 <= k < events.len() implies events[k] == if k < a.len() {
        a[k]
    } else {
        d[k - a.len()]
    } by {
    }
    assert forall|k: int| 0 <= k < a.len() implies appeared(
        g,
        after,
        (#[trigger] a[k]).id as int,
    ) by {
        assert(after.gamepads[a[k].id as int].is_connected);
    }
    assert forall|k: int| 0 <= k < d.len() implies disappeared(
        g,
        after,
        (#[trigger] d[k]).id as int,
    ) by {
        let i = d[k].id as int;
        assert(slots[i] == pads[i]);
        assert(!after.gamepads[i].is_connected);
    }
    assert forall|i: int| #[trigger] appeared(g, after, i) implies exists|k: int|
        0 <= k < events.len() && (#[trigger] events[k]).id == i && events[k].event is Connected by {
        assert(after.gamepads[i].is_connected);
        assert(gilrs::shows(found, slots[i].controller));
        let k = choose|k: int| 0 <= k < a.len() && (#[trigger] a[k]).id == i;
        assert(events[k] == a[k]);
    }
    assert forall|i: int| #[trigger] disappeared(g, after, i) implies exists|k: int|
        0 <= k < events.len() && (#[trigger] events[k]).id == i
            && events[k].event is Disconnected by {
        assert(!after.gamepads[i].is_connected);
        assert(slots[i] == pads[i]);
        assert(pads[i].is_connected && !gilrs::shows(found, pads[i].controller));
        let k = choose|k: int| 0 <= k < d.len() && (#[trigger] d[k]).id == i;
        assert(events[a.len() + k] == d[k]);
    }
    assert forall|j: int, k: int| 0 <= j < k < events.len() implies (#[trigger] events[j]).id != (
    #[trigger] events[k]).id by {
        if j < a.len() && k >= a.len() {
            assert(appeared(g, after, a[j].id as int));
            assert(disappeared(g, after, d[k - a.len()].id as int));
        } else if j < a.len() {
            assert(a[j].id != a[k].id);
        } else {
            assert(d[j - a.len()].id < d[k - a.len()].id);
        }
    }
    assert forall|j: int, k: int|
        0 <= j < k < events.len() && (#[trigger] events[j]).event is Disconnected implies (
    #[trigger] events[k]).event is Disconnected && events[j].id < events[k].id by {
        if j < a.len() {
            assert(a[j].event is Connected);
        } else {
            assert(d[j - a.len()].id < d[k - a.len()].id);
        }
    }
    assert forall|j: int, k: int, p: int, q: int|
        0 <= j < k < events.len() && (#[trigger] events[j]).event is Connected && (
        #[trigger] events[k]).event is Connected && #[trigger] leads(found, p) && #[trigger] leads(
            found,
            q,
        ) && found[p].controller == after.gamepads[events[j].id as int].controller
            && found[q].controller == after.gamepads[events[k].id as int].controller implies p
        < q by {
        assert(k < a.len()) by {
            if k >= a.len() {
                assert(d[k - a.len()].event is Disconnected);
            }
        }
        assert(found[p].controller == slots[a[j].id as int].controller);
        assert(found[q].controller == slots[a[k].id as int].controller);
    }
    assert(reports_connections(g, found, after));
}

/// A step of a poll does what [`is_poll_step`] says, whatever the reply, be it an empty
/// list of controllers.
pub proof fn law_poll_step(g: GilrsView, reply: PollReply, request: PollRequest)
    requires
        g.wf(),
        g.gamepads.len() <= usize::MAX,
        gilrs::poll_effect(g, reply).gamepads.len() <= usize::MAX,
        gilrs::follows(request, g, reply),
    ensures
        is_poll_step(g, reply, gilrs::poll_effect(g, reply), request),
{
    match reply {
        PollReply::Described(found) => {
            law_lining_up(g, found@);
            law_connected_is_the_roll(gilrs::reconciled(g, found@).gamepads);
        },
        PollReply::Read(live) => {
            law_sampling(g, live@);
        },
        _ => {},
    }
}

/// Every list of controllers counts, an empty one too. After a step that took it, a pad is
/// connected if and only if the list shows its controller with an extended profile; one
/// event is added for each pad that was connected and is not shown, and only for those is
/// it told that they are gone; and the pads to be read are the connected ones.
pub proof fn law_every_list_counts(
    before: GilrsView,
    found: Vec<Sighting>,
    after: GilrsView,
    request: PollRequest,
)
    requires
        is_poll_step(before, PollReply::Described(found), after, request),
    ensures
        forall|i: int|
            0 <= i < after.gamepads.len() ==> ((
            #[trigger] after.gamepads[i]).is_connected <==> exists|j: int|
                0 <= j < found@.len() && (#[trigger] found@[j]).controller
                    == after.gamepads[i].controller && found@[j].profile is Some),
        forall|i: int|
            0 <= i < before.gamepads.len() && (#[trigger] before.gamepads[i]).is_connected
                && !after.gamepads[i].is_connected ==> exists|k: int|
                before.queue.len() <= k < after.queue.len() && (#[trigger] after.queue[k]).id == i
                    && after.queue[k].event is Disconnected,
        forall|k: int|
            before.queue.len() <= k < after.queue.len() && (
            #[trigger] after.queue[k]).event is Disconnected ==> after.queue[k].id
                < before.gamepads.len() && before.gamepads[after.queue[k].id as int].is_connected
                && !after.gamepads[after.queue[k].id as int].is_connected,
        forall|j: int, k: int|
            before.queue.len() <= j < k < after.queue.len() ==> (#[trigger] after.queue[j]).id != (
            #[trigger] after.queue[k]).id,
        request is Read,
        forall|i: int|
            0 <= i < after.gamepads.len() ==> ((
            #[trigger] after.gamepads[i]).is_connected <==> exists|k: int|
                0 <= k < request->ids@.len() && (#[trigger] request->ids@[k]) == i),
{
    let n = before.gamepads.len();
    let m = before.queue.len() as int;
    let new = request->new@.map_values(|j: usize| j as int);
    let events = added(before, after);
    let ids = request->ids@;
    assert forall|k: int| m <= k < after.queue.len() implies #[trigger] after.queue[k] == events[k
        - m] by {
    }
    assert forall|i: int| 0 <= i < after.gamepads.len() implies ((
    #[trigger] after.gamepads[i]).is_connected <==> exists|j: int|
        0 <= j < found@.len() && (#[trigger] found@[j]).controller == after.gamepads[i].controller
            && found@[j].profile is Some) by {
        let c = after.gamepads[i].controller;
        if i >= n {
            let k = i - n;
            assert(leads(found@, new[k]) && is_described(after.gamepads[n + k], found@[new[k]]));
            assert(found@[new[k]].controller == c);
        } else if after.gamepads[i].is_connected {
            let j = choose|j: int| #[trigger] lists(found@, j, before.gamepads[i].controller);
            assert(found@[j].controller == c);
        } else if exists|j: int|
            0 <= j < found@.len() && (#[trigger] found@[j]).controller == c
                && found@[j].profile is Some {
            let j = choose|j: int|
                0 <= j < found@.len() && (#[trigger] found@[j]).controller == c
                    && found@[j].profile is Some;
            assert(lists(found@, j, before.gamepads[i].controller));
        }
    }
    assert forall|i: int|
        0 <= i < n && (#[trigger] before.gamepads[i]).is_connected
            && !after.gamepads[i].is_connected implies exists|k: int|
        m <= k < after.queue.len() && (#[trigger] after.queue[k]).id == i
            && after.queue[k].event is Disconnected by {
        assert(disappeared(before, after, i));
        let k = choose|k: int|
            0 <= k < events.len() && (#[trigger] events[k]).id == i
                && events[k].event is Disconnected;
        assert(after.queue[m + k] == events[k]);
    }
    assert forall|k: int|
        m <= k < after.queue.len() && (#[trigger] after.queue[k]).event is Disconnected implies
        after.queue[k].id < n && before.gamepads[after.queue[k].id as int].is_connected
        && !after.gamepads[after.queue[k].id as int].is_connected by {
        assert(disappeared(before, after, events[k - m].id as int));
    }
    assert forall|j: int, k: int| m <= j < k < after.queue.len() implies (
    #[trigger] after.queue[j]).id != (#[trigger] after.queue[k]).id by {
        assert(events[j - m].id != events[k - m].id);
    }
    assert forall|i: int| 0 <= i < after.gamepads.len() implies ((
    #[trigger] after.gamepads[i]).is_connected <==> exists|k: int|
        0 <= k < ids.len() && (#[trigger] ids[k]) == i) by {
    }
}

/// Of a pad that was read, an event is added for a button if and only if it changed, and
/// for an axis if and only if it moved by more than one count; whatever else the pad, and
/// the others, read.
pub proof fn law_readings_are_told_in_full(
    before: GilrsView,
    live: Seq<Readings>,
    after: GilrsView,
    id: int,
    i: int,
)
    requires
        before.wf(),
        is_sampling(before, live, after),
        0 <= id < before.gamepads.len() <= usize::MAX,
        before.gamepads[id].is_connected,
    ensures
        ({
            let was = before.gamepads[id].state;
            let now = after.gamepads[id].state;
            let events = of_pad(added(before, after), id as usize);
            &&& 0 <= i < 15 ==> (was.buttons[i] != now.buttons[i] <==> exists|k: int|
                0 <= k < events.len() && (#[trigger] events[k]).event == if now.buttons[i] {
                    EventType::ButtonPressed(native_ev_codes::button_codes()[i])
                } else {
                    EventType::ButtonReleased(native_ev_codes::button_codes()[i])
                })
            &&& 0 <= i < 6 ==> ((was.axes[i] - now.axes[i] > 1 || now.axes[i] - was.axes[i] > 1)
                <==> exists|k: int|
                0 <= k < events.len() && (#[trigger] events[k]).event
                    == EventType::AxisValueChanged(now.axes[i], native_ev_codes::axis_codes()[i]))
        }),
{
    let was = before.gamepads[id].state;
    let now = after.gamepads[id].state;
    let events = of_pad(added(before, after), id as usize);
    assert(changes::is_account(id as usize, was, now, events));
    native_ev_codes::law_codes_are_distinct();
    if 0 <= i < 15 {
        let code = native_ev_codes::button_codes()[i];
        let told = if now.buttons[i] {
            EventType::ButtonPressed(code)
        } else {
            EventType::ButtonReleased(code)
        };
        if was.buttons[i] != now.buttons[i] {
            assert(changes::tells(id as usize, events, told));
        }
        assert forall|k: int| 0 <= k < events.len() && (#[trigger] events[k]).event == told implies
            was.buttons[i] != now.buttons[i] by {
            assert(changes::is_of_a_change(was, now, events[k].event));
        }
    }
    if 0 <= i < 6 {
        let code = native_ev_codes::axis_codes()[i];
        let told = EventType::AxisValueChanged(now.axes[i], code);
        let moved = was.axes[i] - now.axes[i] > 1 || now.axes[i] - was.axes[i] > 1;
        if moved {
            assert(changes::tells(id as usize, events, told));
        }
        assert forall|k: int| 0 <= k < events.len() && (
        #[trigger] events[k]).event == told implies moved by {
            assert(changes::is_of_a_change(was, now, events[k].event));
        }
    }
}

/// A new pad has the name that its vendor gave it, whatever it is, and the stand-in only
/// where there is none; a pad that was there keeps its name.
pub proof fn law_names_after_lining_up(
    before: GilrsView,
    found: Seq<Sighting>,
    after: GilrsView,
    new: Seq<int>,
    i: int,
)
    requires
        is_lined_up(before, found, after, new),
        0 <= i < after.gamepads.len(),
    ensures
        i < before.gamepads.len() ==> after.gamepads[i].name == before.gamepads[i].name,
        i >= before.gamepads.len() ==> exists|j: int|
            0 <= j < found.len() && (#[trigger] found[j]).controller == after.gamepads[i].controller
                && found[j].profile is Some && match found[j].profile->0.vendor_name {
                Some(name) => after.gamepads[i].name == name@,
                None => after.gamepads[i].name == "Unknown Controller"@,
            },
{
    let n = before.gamepads.len();
    if i >= n {
        let k = i - n;
        assert(leads(found, new[k]) && is_described(after.gamepads[n + k], found[new[k]]));
        assert(found[new[k]].controller == after.gamepads[i].controller);
    }
}

} // verus!

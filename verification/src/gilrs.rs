//! All pads together: which are there, and what they report.

use crate::changes;
use crate::event::{Event, EventType};
use crate::gamepad;
use crate::gamepad::{Gamepad, GamepadView};
use crate::promises;
use crate::pump;
use crate::state::Readings;
use std::collections::VecDeque;
use vstd::prelude::*;

verus! {

/// What the framework says of a controller that has an extended gamepad profile.
#[derive(Debug)]
pub struct Profile {
    pub vendor_name: Option<String>,
    pub readings: Readings,
}

/// One controller in the list that the framework gives.
#[derive(Debug)]
pub struct Sighting {
    /// The address of the controller object, see [`Gamepad::is`].
    pub controller: usize,
    /// `None` for a remote, a racing wheel and whatever else has no extended profile:
    /// there is no vocabulary for its controls, so it is no gamepad here.
    pub profile: Option<Profile>,
}

/// The pads, and the events that were not handed out yet.
pub struct Gilrs {
    gamepads: Vec<Gamepad>,
    queue: VecDeque<Event>,
    background_events_set: bool,
}

/// What to do for the next event.
#[derive(Copy, Clone, Debug, PartialEq, Eq, Structural)]
pub enum NextEvent {
    /// Hand out this event.
    Deliver(Event),
    /// Poll the pads, and ask again.
    Poll,
    /// There is no event.
    Nothing,
}

/// What came of the last request of a poll.
#[derive(Debug)]
pub enum PollReply {
    /// Nothing was requested yet.
    Start,
    /// A turn of the run loop, after so many before it, serviced a source or not.
    Turned { turns: u32, serviced: bool },
    /// So many controllers are listed.
    Listed(usize),
    /// Background events are on.
    SwitchedOn,
    /// The controllers that are listed.
    Described(Vec<Sighting>),
    /// A new reading of each of the pads that were to be read.
    Read(Vec<Readings>),
}

/// What a poll needs to be done next.
#[derive(Debug)]
pub enum PollRequest {
    /// Turn the run loop once, without waiting. It was turned so often before.
    Turn { turns: u32 },
    /// List the controllers.
    List,
    /// Switch background events on.
    SwitchOnBackgroundEvents,
    /// Describe the controllers that are listed.
    Describe,
    /// Keep the controllers at the positions `new` of the list, which belong to the new
    /// slots, and read the pads `ids`.
    Read { new: Vec<usize>, ids: Vec<usize> },
    /// The poll is over.
    Done,
}

/// The contents of a [`Gilrs`].
#[verifier::ext_equal]
pub struct GilrsView {
    pub gamepads: Seq<GamepadView>,
    pub queue: Seq<Event>,
    pub background_events_set: bool,
}

impl View for Gilrs {
    type V = GilrsView;

    closed spec fn view(&self) -> GilrsView {
        GilrsView {
            gamepads: self.gamepads@.map_values(|g: Gamepad| g@),
            queue: self.queue@,
            background_events_set: self.background_events_set,
        }
    }
}

/// Whether one of the pads belongs to the controller.
pub open spec fn knows(pads: Seq<GamepadView>, controller: usize) -> bool {
    exists|i: int| 0 <= i < pads.len() && (#[trigger] pads[i]).controller == controller
}

/// The index of the pad that belongs to the controller.
pub open spec fn slot(pads: Seq<GamepadView>, controller: usize) -> int {
    choose|i: int| 0 <= i < pads.len() && (#[trigger] pads[i]).controller == controller
}

/// Whether the list shows the controller, with an extended profile.
pub open spec fn shows(found: Seq<Sighting>, controller: usize) -> bool {
    exists|j: int|
        0 <= j < found.len() && (#[trigger] found[j]).controller == controller
            && found[j].profile is Some
}

/// The pad for a controller that was not known.
pub open spec fn newcomer(seen: Sighting) -> GamepadView {
    GamepadView {
        controller: seen.controller,
        name: gamepad::display_name(seen.profile->0.vendor_name),
        is_connected: true,
        state: seen.profile->0.readings.state(),
    }
}

/// The positions in the list of the controllers that are new: gamepads that no pad
/// belongs to yet, each at its first position.
pub open spec fn new_positions(pads: Seq<GamepadView>, found: Seq<Sighting>) -> Seq<int>
    decreases found.len(),
{
    if found.len() == 0 {
        Seq::empty()
    } else {
        let earlier = found.drop_last();
        let seen = found.last();
        if seen.profile is Some && !knows(pads, seen.controller) && !shows(
            earlier,
            seen.controller,
        ) {
            new_positions(pads, earlier).push(found.len() - 1)
        } else {
            new_positions(pads, earlier)
        }
    }
}

/// The pads with a new slot at the end for each new controller.
pub open spec fn admitted(pads: Seq<GamepadView>, found: Seq<Sighting>) -> Seq<GamepadView> {
    pads + new_positions(pads, found).map_values(|j: int| newcomer(found[j]))
}

/// The events for pads that appeared, in the order of the list: one for each that is
/// new or was disconnected.
pub open spec fn arrivals(pads: Seq<GamepadView>, found: Seq<Sighting>) -> Seq<Event>
    decreases found.len(),
{
    if found.len() == 0 {
        Seq::empty()
    } else {
        let earlier = found.drop_last();
        let seen = found.last();
        let is_connected = knows(pads, seen.controller) && pads[slot(
            pads,
            seen.controller,
        )].is_connected;
        if seen.profile is Some && !is_connected && !shows(earlier, seen.controller) {
            arrivals(pads, earlier).push(
                Event {
                    id: slot(admitted(pads, found), seen.controller) as usize,
                    event: EventType::Connected,
                },
            )
        } else {
            arrivals(pads, earlier)
        }
    }
}

/// The events for those of the first `n` pads that disappeared, in ascending order.
pub open spec fn departures(pads: Seq<GamepadView>, found: Seq<Sighting>, n: nat) -> Seq<Event>
    decreases n,
{
    if n == 0 {
        Seq::empty()
    } else {
        let id = n - 1;
        let before = departures(pads, found, id as nat);
        if pads[id].is_connected && !shows(found, pads[id].controller) {
            before.push(Event { id: id as usize, event: EventType::Disconnected })
        } else {
            before
        }
    }
}

/// What the list of controllers makes of the pads: every controller has a slot, a pad
/// is connected if the list shows it, and whatever changed in that is reported.
pub open spec fn reconciled(g: GilrsView, found: Seq<Sighting>) -> GilrsView {
    let pads = admitted(g.gamepads, found);
    GilrsView {
        gamepads: pads.map_values(
            |pad: GamepadView|
                GamepadView { is_connected: shows(found, pad.controller), ..pad },
        ),
        queue: g.queue + arrivals(g.gamepads, found) + departures(
            g.gamepads,
            found,
            g.gamepads.len(),
        ),
        background_events_set: g.background_events_set,
    }
}

/// The indices of those of the first `n` pads that are connected, in ascending order.
pub open spec fn connected(pads: Seq<GamepadView>, n: nat) -> Seq<usize>
    decreases n,
{
    if n == 0 {
        Seq::empty()
    } else {
        let id = n - 1;
        let before = connected(pads, id as nat);
        if pads[id].is_connected {
            before.push(id as usize)
        } else {
            before
        }
    }
}

/// The new reading of pad `id`, where `live` holds one for each connected pad.
pub open spec fn reading_of(pads: Seq<GamepadView>, live: Seq<Readings>, id: int) -> Readings {
    live[connected(pads, id as nat).len() as int]
}

/// What those of the first `n` pads that are connected report of their new readings.
pub open spec fn activity(pads: Seq<GamepadView>, live: Seq<Readings>, n: nat) -> Seq<Event>
    decreases n,
{
    if n == 0 {
        Seq::empty()
    } else {
        let id = n - 1;
        let before = activity(pads, live, id as nat);
        if pads[id].is_connected {
            before + changes::changes(
                id as usize,
                pads[id].state,
                reading_of(pads, live, id).state(),
            )
        } else {
            before
        }
    }
}

/// What a new reading of every connected pad makes of the pads: each connected one
/// has the new state, and everything that moved is reported.
pub open spec fn sampled(g: GilrsView, live: Seq<Readings>) -> GilrsView {
    GilrsView {
        gamepads: Seq::new(
            g.gamepads.len(),
            |id: int|
                if g.gamepads[id].is_connected {
                    GamepadView {
                        state: reading_of(g.gamepads, live, id).state(),
                        ..g.gamepads[id]
                    }
                } else {
                    g.gamepads[id]
                },
        ),
        queue: g.queue + activity(g.gamepads, live, g.gamepads.len()),
        background_events_set: g.background_events_set,
    }
}

/// The pads after the number of listed controllers is known.
pub open spec fn listed(g: GilrsView, controllers: nat) -> GilrsView {
    GilrsView { background_events_set: g.background_events_set || controllers > 0, ..g }
}

/// What a step of a poll does to the pads.
pub open spec fn poll_effect(g: GilrsView, reply: PollReply) -> GilrsView {
    match reply {
        PollReply::Listed(controllers) => listed(g, controllers as nat),
        PollReply::Described(found) => reconciled(g, found@),
        PollReply::Read(live) => sampled(g, live@),
        _ => g,
    }
}

/// Whether `request` is the one to make after `reply`, for pads that were in state `g`.
pub open spec fn follows(request: PollRequest, g: GilrsView, reply: PollReply) -> bool {
    match reply {
        PollReply::Start => request == (PollRequest::Turn { turns: 0 }),
        PollReply::Turned { turns, serviced } => if pump::another_turn(
            (turns + 1) as nat,
            serviced,
        ) {
            request == (PollRequest::Turn { turns: (turns + 1) as u32 })
        } else {
            request is List
        },
        PollReply::Listed(controllers) => if !g.background_events_set && controllers > 0 {
            request is SwitchOnBackgroundEvents
        } else {
            request is Describe
        },
        PollReply::SwitchedOn => request is Describe,
        PollReply::Described(found) => {
            let after = reconciled(g, found@);
            request matches PollRequest::Read { new, ids } && new@.map_values(
                |j: usize| j as int,
            ) == new_positions(g.gamepads, found@) && ids@ == connected(
                after.gamepads,
                after.gamepads.len(),
            )
        },
        PollReply::Read(live) => request is Done,
    }
}

/// Whether no two pads belong to the same controller.
pub open spec fn distinct(pads: Seq<GamepadView>) -> bool {
    forall|i: int, j: int|
        0 <= i < j < pads.len() ==> (#[trigger] pads[i]).controller != (
        #[trigger] pads[j]).controller
}

impl GilrsView {
    /// No two pads belong to the same controller, and every state is complete.
    pub open spec fn wf(self) -> bool {
        &&& distinct(self.gamepads)
        &&& forall|i: int|
            0 <= i < self.gamepads.len() ==> (#[trigger] self.gamepads[i]).state.is_complete()
    }
}

pub(crate) proof fn lemma_shows_step(found: Seq<Sighting>, controller: usize)
    requires
        found.len() > 0,
    ensures
        shows(found, controller) <==> shows(found.drop_last(), controller) || (
        found.last().controller == controller && found.last().profile is Some),
{
    let earlier = found.drop_last();
    if shows(earlier, controller) {
        let j = choose|j: int|
            0 <= j < earlier.len() && (#[trigger] earlier[j]).controller == controller
                && earlier[j].profile is Some;
        assert(found[j].controller == controller);
    }
    if shows(found, controller) {
        let j = choose|j: int|
            0 <= j < found.len() && (#[trigger] found[j]).controller == controller
                && found[j].profile is Some;
        if j < earlier.len() {
            assert(earlier[j].controller == controller);
        }
    }
}

/// New positions lie in the list, and are of controllers with an extended profile.
pub(crate) proof fn lemma_new_positions_bounds(pads: Seq<GamepadView>, found: Seq<Sighting>)
    ensures
        forall|k: int|
            0 <= k < new_positions(pads, found).len() ==> 0 <= #[trigger] new_positions(
                pads,
                found,
            )[k] < found.len() && found[new_positions(pads, found)[k]].profile is Some,
    decreases found.len(),
{
    if found.len() > 0 {
        lemma_new_positions_bounds(pads, found.drop_last());
    }
}

/// One more entry of the list adds at most one slot.
pub(crate) proof fn lemma_admitted_step(pads: Seq<GamepadView>, found: Seq<Sighting>)
    requires
        found.len() > 0,
    ensures
        ({
            let earlier = found.drop_last();
            let seen = found.last();
            let is_new = seen.profile is Some && !knows(pads, seen.controller) && !shows(
                earlier,
                seen.controller,
            );
            admitted(pads, found) == if is_new {
                admitted(pads, earlier).push(newcomer(seen))
            } else {
                admitted(pads, earlier)
            }
        }),
{
    let earlier = found.drop_last();
    lemma_new_positions_bounds(pads, earlier);
    let before = new_positions(pads, earlier);
    assert(before.map_values(|j: int| newcomer(found[j])) =~= before.map_values(
        |j: int| newcomer(earlier[j]),
    ));
    assert(admitted(pads, found) =~= if new_positions(pads, found) == before {
        admitted(pads, earlier)
    } else {
        admitted(pads, earlier).push(newcomer(found.last()))
    });
}

/// After admission, exactly the old pads and the listed gamepads have a slot.
pub(crate) proof fn lemma_admitted_knows(
    pads: Seq<GamepadView>,
    found: Seq<Sighting>,
    controller: usize,
)
    ensures
        knows(admitted(pads, found), controller) <==> knows(pads, controller) || shows(
            found,
            controller,
        ),
    decreases found.len(),
{
    if found.len() == 0 {
        assert(admitted(pads, found) =~= pads);
    } else {
        let earlier = found.drop_last();
        lemma_admitted_knows(pads, earlier, controller);
        lemma_admitted_step(pads, found);
        lemma_shows_step(found, controller);
        let before = admitted(pads, earlier);
        let after = admitted(pads, found);
        if knows(before, controller) {
            let i = slot(before, controller);
            assert(after[i].controller == controller);
        }
        if after.len() > before.len() {
            assert(after[before.len() as int] == newcomer(found.last()));
        }
        if knows(after, controller) {
            let i = slot(after, controller);
            if i < before.len() {
                assert(before[i].controller == controller);
            }
        }
    }
}

pub(crate) proof fn lemma_admitted_distinct(pads: Seq<GamepadView>, found: Seq<Sighting>)
    requires
        distinct(pads),
    ensures
        distinct(admitted(pads, found)),
    decreases found.len(),
{
    if found.len() == 0 {
        assert(admitted(pads, found) =~= pads);
    } else {
        let earlier = found.drop_last();
        lemma_admitted_distinct(pads, earlier);
        lemma_admitted_step(pads, found);
        lemma_admitted_knows(pads, earlier, found.last().controller);
        let before = admitted(pads, earlier);
        assert forall|i: int| 0 <= i < before.len() && !knows(
            before,
            found.last().controller,
        ) implies (#[trigger] before[i]).controller != found.last().controller by {
        }
    }
}

/// In distinct pads, the slot of a controller is the index that belongs to it.
pub(crate) proof fn lemma_slot(pads: Seq<GamepadView>, i: int)
    requires
        distinct(pads),
        0 <= i < pads.len(),
    ensures
        knows(pads, pads[i].controller),
        slot(pads, pads[i].controller) == i,
{
    let k = slot(pads, pads[i].controller);
    assert(pads[k].controller == pads[i].controller);
}

/// Whatever controllers are listed, no two pads belong to the same one.
pub proof fn law_reconciling_keeps_wf(g: GilrsView, found: Seq<Sighting>)
    requires
        g.wf(),
    ensures
        reconciled(g, found).wf(),
{
    let pads = g.gamepads;
    let slots = admitted(pads, found);
    let after = reconciled(g, found).gamepads;
    lemma_admitted_distinct(pads, found);
    assert forall|i: int, j: int| 0 <= i < j < after.len() implies (
    #[trigger] after[i]).controller != (#[trigger] after[j]).controller by {
        assert(slots[i].controller != slots[j].controller);
    }
    assert forall|i: int| 0 <= i < after.len() implies (
    #[trigger] after[i]).state.is_complete() by {
        if i < pads.len() {
            assert(pads[i].state.is_complete());
        } else {
            let j = new_positions(pads, found)[i - pads.len()];
            assert(slots[i] == newcomer(found[j]));
        }
    }
}

/// Whatever the pads read, no two of them belong to the same controller.
pub proof fn law_sampling_keeps_wf(g: GilrsView, live: Seq<Readings>)
    requires
        g.wf(),
    ensures
        sampled(g, live).wf(),
{
    let pads = g.gamepads;
    let after = sampled(g, live).gamepads;
    assert forall|i: int| 0 <= i < pads.len() implies (
    #[trigger] after[i]).state.is_complete() by {
        assert(pads[i].state.is_complete());
    }
    assert forall|i: int, j: int| 0 <= i < j < pads.len() implies (
    #[trigger] after[i]).controller != (#[trigger] after[j]).controller by {
        assert(pads[i].controller != pads[j].controller);
    }
}

impl Gilrs {
    /// No pads, no events.
    pub fn new() -> (this: Gilrs)
        ensures
            this@ == (GilrsView {
                gamepads: Seq::empty(),
                queue: Seq::empty(),
                background_events_set: false,
            }),
            this@.wf(),
    {
        let this = Gilrs {
            gamepads: Vec::new(),
            queue: VecDeque::new(),
            background_events_set: false,
        };
        assert(this@.gamepads =~= Seq::empty());
        this
    }

    /// The pad with index `id`. A pad keeps its index, also while it is disconnected.
    pub fn gamepad(&self, id: usize) -> (pad: Option<&Gamepad>)
        ensures
            match pad {
                Some(pad) => id < self@.gamepads.len() && pad@ == self@.gamepads[id as int],
                None => id >= self@.gamepads.len(),
            },
    {
        if id < self.gamepads.len() {
            Some(&self.gamepads[id])
        } else {
            None
        }
    }

    /// The events that were not handed out yet, the oldest first.
    pub fn waiting(&self) -> (events: &VecDeque<Event>)
        ensures
            events@ == self@.queue,
    {
        &self.queue
    }

    /// Whether background events were switched on, see
    /// [`Gilrs::monitor_background_events`].
    pub fn background_events_set(&self) -> (set: bool)
        ensures
            set == self@.background_events_set,
    {
        self.background_events_set
    }

    /// The number of pads that were ever there: every index is below it.
    pub fn last_gamepad_hint(&self) -> (n: usize)
        ensures
            n == self@.gamepads.len(),
    {
        self.gamepads.len()
    }

    /// The index of the pad that belongs to the controller.
    fn position(&self, controller: usize) -> (id: Option<usize>)
        ensures
            match id {
                Some(id) => id < self@.gamepads.len() && self@.gamepads[id as int].controller
                    == controller,
                None => !knows(self@.gamepads, controller),
            },
    {
        for i in 0..self.gamepads.len()
            invariant
                forall|j: int| 0 <= j < i ==> (#[trigger] self@.gamepads[j]).controller
                    != controller,
        {
            if self.gamepads[i].is(controller) {
                return Some(i);
            }
        }
        None
    }

    /// Brings the pads in line with the list of controllers that the framework gives,
    /// and reports every pad that appeared or disappeared.
    ///
    /// A slot is never removed. A pad that is disconnected keeps its index, so that
    /// indices stay dense and new ones come in ascending order.
    ///
    /// Returns the positions in the list of the controllers that got a new slot, in
    /// the order of the slots.
    pub fn reconcile(&mut self, found: &Vec<Sighting>) -> (new: Vec<usize>)
        requires
            old(self)@.wf(),
        ensures
            final(self)@ == reconciled(old(self)@, found@),
            final(self)@.wf(),
            new@.map_values(|j: usize| j as int) == new_positions(old(self)@.gamepads, found@),
            promises::is_lined_up(
                old(self)@,
                found@,
                final(self)@,
                new@.map_values(|j: usize| j as int),
            ),
    {
        let ghost pads = self@.gamepads;
        let ghost start = self@;
        let mut seen: Vec<bool> = Vec::new();
        for id in 0..self.gamepads.len()
            invariant
                self@ == start,
                seen@.len() == id,
                forall|i: int| 0 <= i < id ==> !seen@[i],
        {
            seen.push(false);
        }
        let mut new: Vec<usize> = Vec::new();
        proof {
            assert(found@.take(0) =~= Seq::empty());
            assert(admitted(pads, found@.take(0)) =~= pads);
            assert(new@.map_values(|j: usize| j as int) =~= Seq::empty());
        }
        for k in 0..found.len()
            invariant
                start.wf(),
                pads == start.gamepads,
                self@.background_events_set == start.background_events_set,
                self@.queue == start.queue + arrivals(pads, found@.take(k as int)),
                self@.gamepads.len() == admitted(pads, found@.take(k as int)).len(),
                seen@.len() == self@.gamepads.len(),
                forall|i: int|
                    0 <= i < self@.gamepads.len() ==> #[trigger] self@.gamepads[i] == (GamepadView {
                        is_connected: admitted(pads, found@.take(k as int))[i].is_connected
                            || seen@[i],
                        ..admitted(pads, found@.take(k as int))[i]
                    }),
                forall|i: int|
                    0 <= i < self@.gamepads.len() ==> #[trigger] seen@[i] == shows(
                        found@.take(k as int),
                        self@.gamepads[i].controller,
                    ),
                new@.map_values(|j: usize| j as int) == new_positions(pads, found@.take(k as int)),
        {
            let ghost earlier = found@.take(k as int);
            let ghost list = found@.take(k + 1);
            let ghost before = self@;
            proof {
                assert(list.drop_last() =~= earlier);
                assert(list.last() == found@[k as int]);
                lemma_admitted_step(pads, list);
                lemma_admitted_distinct(pads, earlier);
                lemma_admitted_distinct(pads, list);
                lemma_admitted_knows(pads, earlier, found@[k as int].controller);
                assert forall|i: int| 0 <= i < before.gamepads.len() implies shows(
                    list,
                    (#[trigger] before.gamepads[i]).controller,
                ) == (shows(earlier, before.gamepads[i].controller) || (
                found@[k as int].controller == before.gamepads[i].controller
                    && found@[k as int].profile is Some)) by {
                    lemma_shows_step(list, before.gamepads[i].controller);
                }
            }
            let sighting: &Sighting = &found[k];
            if let Some(profile) = &sighting.profile {
                match self.position(sighting.controller) {
                    Some(id) => {
                        proof {
                            let c = sighting.controller;
                            assert(admitted(pads, earlier)[id as int].controller == c);
                            lemma_slot(admitted(pads, earlier), id as int);
                            assert(admitted(pads, list) == admitted(pads, earlier));
                            if id < pads.len() {
                                assert(pads[id as int] == admitted(pads, earlier)[id as int]);
                                lemma_slot(pads, id as int);
                            } else {
                                assert(!knows(pads, c)) by {
                                    if knows(pads, c) {
                                        let i = slot(pads, c);
                                        assert(admitted(pads, earlier)[i].controller == c);
                                    }
                                }
                            }
                        }
                        seen.set(id, true);
                        if !self.gamepads[id].is_connected() {
                            self.gamepads[id].set_connected(true);
                            self.queue.push_back(Event::new(id, EventType::Connected));
                        }
                        proof {
                            assert(self@.gamepads =~= before.gamepads.update(
                                id as int,
                                GamepadView { is_connected: true, ..before.gamepads[id as int] },
                            ));
                            assert(self@.queue =~= start.queue + arrivals(pads, list));
                        }
                    },
                    None => {
                        let id: usize = self.gamepads.len();
                        let vendor_name: Option<String> = match &profile.vendor_name {
                            Some(name) => Some(name.clone()),
                            None => None,
                        };
                        self.gamepads.push(
                            Gamepad::new(sighting.controller, vendor_name, &profile.readings),
                        );
                        seen.push(true);
                        self.queue.push_back(Event::new(id, EventType::Connected));
                        new.push(k);
                        proof {
                            let c = sighting.controller;
                            assert(!knows(admitted(pads, earlier), c)) by {
                                if knows(admitted(pads, earlier), c) {
                                    let i = slot(admitted(pads, earlier), c);
                                    assert(before.gamepads[i].controller == c);
                                }
                            }
                            assert(self@.gamepads =~= before.gamepads.push(newcomer(*sighting)));
                            lemma_slot(admitted(pads, list), id as int);
                            assert(self@.queue =~= start.queue + arrivals(pads, list));
                            assert(new@.map_values(|j: usize| j as int) =~= new_positions(
                                pads,
                                list,
                            ));
                        }
                    },
                }
            }
        }
        let ghost middle = self@;
        let ghost slots = admitted(pads, found@);
        let ghost old_len = pads.len();
        proof {
            assert(found@.take(found@.len() as int) =~= found@);
            lemma_admitted_distinct(pads, found@);
            lemma_new_positions_bounds(pads, found@);
            assert forall|i: int| old_len <= i < slots.len() implies #[trigger] seen@[i] by {
                let j = new_positions(pads, found@)[i - old_len];
                assert(slots[i] == newcomer(found@[j]));
                assert(found@[j].controller == middle.gamepads[i].controller);
            }
        }
        for id in 0..seen.len()
            invariant
                middle.gamepads.len() == slots.len(),
                slots == admitted(pads, found@),
                old_len == pads.len() <= slots.len(),
                seen@.len() == slots.len(),
                self@.gamepads.len() == slots.len(),
                self@.background_events_set == middle.background_events_set,
                self@.queue == middle.queue + departures(
                    pads,
                    found@,
                    if id < old_len {
                        id as nat
                    } else {
                        old_len
                    },
                ),
                forall|i: int|
                    0 <= i < slots.len() ==> #[trigger] middle.gamepads[i] == (GamepadView {
                        is_connected: slots[i].is_connected || seen@[i],
                        ..slots[i]
                    }),
                forall|i: int|
                    0 <= i < slots.len() ==> #[trigger] seen@[i] == shows(
                        found@,
                        slots[i].controller,
                    ),
                forall|i: int| old_len <= i < slots.len() ==> #[trigger] seen@[i],
                forall|i: int|
                    0 <= i < id ==> #[trigger] self@.gamepads[i] == (GamepadView {
                        is_connected: seen@[i],
                        ..slots[i]
                    }),
                forall|i: int|
                    id <= i < slots.len() ==> #[trigger] self@.gamepads[i] == middle.gamepads[i],
        {
            let ghost before = self@;
            proof {
                assert(before.gamepads[id as int] == middle.gamepads[id as int]);
                if id < old_len {
                    assert(slots[id as int] == pads[id as int]);
                }
            }
            if !seen[id] && self.gamepads[id].is_connected() {
                self.gamepads[id].set_connected(false);
                self.queue.push_back(Event::new(id, EventType::Disconnected));
                proof {
                    assert(self@.gamepads =~= before.gamepads.update(
                        id as int,
                        GamepadView { is_connected: false, ..before.gamepads[id as int] },
                    ));
                }
            }
            proof {
                if id < old_len {
                    assert(self@.queue =~= middle.queue + departures(
                        pads,
                        found@,
                        (id + 1) as nat,
                    ));
                }
            }
        }
        proof {
            let after = reconciled(start, found@);
            assert(self@.gamepads =~= after.gamepads);
            assert(self@.queue =~= after.queue);
            law_reconciling_keeps_wf(start, found@);
            assert(self@.gamepads.len() == self.gamepads.len());
            promises::law_lining_up(start, found@);
        }
        new
    }

    /// Whether background events have to be switched on now, given how many
    /// controllers the framework lists. Says so once, at the first controller.
    ///
    /// On macOS every control of an app that is not frontmost reads 0 unless they are
    /// on. They are switched on after a controller exists and not earlier, because the
    /// framework can crash before it has one.
    pub fn monitor_background_events(&mut self, controllers: usize) -> (switch_on: bool)
        ensures
            switch_on == (!old(self)@.background_events_set && controllers > 0),
            final(self)@ == (GilrsView {
                background_events_set: old(self)@.background_events_set || controllers > 0,
                ..old(self)@
            }),
    {
        if !self.background_events_set && controllers > 0 {
            self.background_events_set = true;
            true
        } else {
            false
        }
    }

    /// The indices of the pads that have to be read for [`Gilrs::sample`].
    pub fn connected(&self) -> (ids: Vec<usize>)
        ensures
            ids@ == connected(self@.gamepads, self@.gamepads.len()),
            promises::is_roll(self@.gamepads, ids@),
    {
        let mut ids: Vec<usize> = Vec::new();
        for id in 0..self.gamepads.len()
            invariant
                ids@ == connected(self@.gamepads, id as nat),
        {
            if self.gamepads[id].is_connected() {
                ids.push(id);
            }
        }
        proof {
            assert(self@.gamepads.len() == self.gamepads.len());
            promises::law_connected_is_the_roll(self@.gamepads);
        }
        ids
    }

    /// Takes a new reading of every connected pad and reports everything that moved.
    /// The readings are in the order of [`Gilrs::connected`].
    pub fn sample(&mut self, live: &Vec<Readings>)
        requires
            old(self)@.wf(),
            live@.len() == connected(old(self)@.gamepads, old(self)@.gamepads.len()).len(),
        ensures
            final(self)@ == sampled(old(self)@, live@),
            final(self)@.wf(),
            promises::is_sampling(old(self)@, live@, final(self)@),
            forall|i: int|
                0 <= i < old(self)@.gamepads.len() && (
                #[trigger] old(self)@.gamepads[i]).is_connected ==> changes::indistinct(
                    changes::replay(
                        old(self)@.gamepads[i].state,
                        promises::of_pad(promises::added(old(self)@, final(self)@), i as usize),
                    ),
                    final(self)@.gamepads[i].state,
                ),
    {
        let ghost start = self@;
        let ghost pads = self@.gamepads;
        let mut next: usize = 0;
        let n: usize = self.gamepads.len();
        for id in 0..n
            invariant
                n == pads.len(),
                pads == start.gamepads,
                start.wf(),
                self@.gamepads.len() == pads.len(),
                self@.background_events_set == start.background_events_set,
                next == connected(pads, id as nat).len(),
                live@.len() == connected(pads, pads.len()).len(),
                self@.queue == start.queue + activity(pads, live@, id as nat),
                forall|i: int|
                    0 <= i < id ==> #[trigger] self@.gamepads[i] == sampled(
                        start,
                        live@,
                    ).gamepads[i],
                forall|i: int| id <= i < pads.len() ==> #[trigger] self@.gamepads[i] == pads[i],
        {
            let ghost before = self@;
            proof {
                assert(before.gamepads[id as int] == pads[id as int]);
            }
            if self.gamepads[id].is_connected() {
                let mut out: Vec<Event> = Vec::new();
                proof {
                    lemma_connected_grows(pads, (id + 1) as nat, pads.len());
                    assert(next < live.len());
                }
                self.gamepads[id].diff(id, &live[next], &mut out);
                next += 1;
                proof {
                    assert(self@.gamepads =~= before.gamepads.update(
                        id as int,
                        sampled(start, live@).gamepads[id as int],
                    ));
                    assert(out@ =~= changes::changes(
                        id,
                        pads[id as int].state,
                        reading_of(pads, live@, id as int).state(),
                    ));
                }
                let ghost middle = self@;
                for k in 0..out.len()
                    invariant
                        self@.gamepads == middle.gamepads,
                        self@.background_events_set == middle.background_events_set,
                        self@.queue == middle.queue + out@.take(k as int),
                {
                    self.queue.push_back(out[k]);
                    assert(out@.take(k + 1) =~= out@.take(k as int).push(out@[k as int]));
                }
                assert(out@.take(out@.len() as int) =~= out@);
            }
            assert(self@.queue =~= start.queue + activity(pads, live@, (id + 1) as nat));
        }
        proof {
            let after = sampled(start, live@);
            assert(self@.gamepads =~= after.gamepads);
            assert(self@.queue =~= after.queue);
            law_sampling_keeps_wf(start, live@);
            promises::law_sampling(start, live@);
            assert forall|i: int|
                0 <= i < pads.len() && (
                #[trigger] pads[i]).is_connected implies changes::indistinct(
                changes::replay(
                    pads[i].state,
                    promises::of_pad(promises::added(start, after), i as usize),
                ),
                after.gamepads[i].state,
            ) by {
                promises::law_added_events_tell_the_new_states(start, live@, i);
            }
        }
    }

    /// One step of a poll: takes what came of the last request and says what to do next.
    ///
    /// A poll drains the run loop, lists the controllers, switches background events on
    /// if it is time to, brings the pads in line with the list, and then takes a new
    /// reading of every connected pad.
    pub fn poll(&mut self, reply: PollReply) -> (request: PollRequest)
        requires
            old(self)@.wf(),
            reply matches PollReply::Read(live) ==> live@.len() == connected(
                old(self)@.gamepads,
                old(self)@.gamepads.len(),
            ).len(),
        ensures
            final(self)@ == poll_effect(old(self)@, reply),
            final(self)@.wf(),
            follows(request, old(self)@, reply),
            promises::is_poll_step(old(self)@, reply, final(self)@, request),
            reply matches PollReply::Described(found) ==> {
                &&& forall|i: int|
                    0 <= i < final(self)@.gamepads.len() ==> ((
                    #[trigger] final(self)@.gamepads[i]).is_connected <==> exists|j: int|
                        0 <= j < found@.len() && (#[trigger] found@[j]).controller
                            == final(self)@.gamepads[i].controller && found@[j].profile is Some)
                &&& forall|i: int|
                    0 <= i < old(self)@.gamepads.len() && (
                    #[trigger] old(self)@.gamepads[i]).is_connected
                        && !final(self)@.gamepads[i].is_connected ==> exists|k: int|
                        old(self)@.queue.len() <= k < final(self)@.queue.len() && (
                        #[trigger] final(self)@.queue[k]).id == i
                            && final(self)@.queue[k].event is Disconnected
            },
    {
        match reply {
            PollReply::Start => PollRequest::Turn { turns: 0 },
            PollReply::Turned { turns, serviced } => {
                let turns: u32 = if turns < pump::TURN_LIMIT {
                    turns + 1
                } else {
                    turns
                };
                if pump::drain_again(turns, serviced) {
                    PollRequest::Turn { turns }
                } else {
                    PollRequest::List
                }
            },
            PollReply::Listed(controllers) => {
                if self.monitor_background_events(controllers) {
                    PollRequest::SwitchOnBackgroundEvents
                } else {
                    PollRequest::Describe
                }
            },
            PollReply::SwitchedOn => PollRequest::Describe,
            PollReply::Described(found) => {
                let new: Vec<usize> = self.reconcile(&found);
                let ids: Vec<usize> = self.connected();
                let request: PollRequest = PollRequest::Read { new, ids };
                proof {
                    promises::law_every_list_counts(old(self)@, found, self@, request);
                }
                request
            },
            PollReply::Read(live) => {
                self.sample(&live);
                PollRequest::Done
            },
        }
    }

    /// The next step on the way to an event: events that wait are handed out before
    /// the pads are polled again, and the pads are polled at most once.
    pub fn next_event(&mut self, polled: bool) -> (step: NextEvent)
        ensures
            old(self)@.queue.len() > 0 ==> {
                &&& step == NextEvent::Deliver(old(self)@.queue[0])
                &&& final(self)@ == (GilrsView {
                    queue: old(self)@.queue.drop_first(),
                    ..old(self)@
                })
            },
            old(self)@.queue.len() == 0 ==> {
                &&& step == (if polled {
                    NextEvent::Nothing
                } else {
                    NextEvent::Poll
                })
                &&& final(self)@ == old(self)@
            },
    {
        match self.queue.pop_front() {
            Some(event) => {
                assert(self@.queue =~= old(self)@.queue.drop_first());
                NextEvent::Deliver(event)
            },
            None => if polled {
                NextEvent::Nothing
            } else {
                NextEvent::Poll
            },
        }
    }
}

proof fn lemma_connected_grows(pads: Seq<GamepadView>, m: nat, n: nat)
    requires
        m <= n,
    ensures
        connected(pads, m).len() <= connected(pads, n).len(),
    decreases n,
{
    if m < n {
        lemma_connected_grows(pads, m, (n - 1) as nat);
    }
}

} // verus!

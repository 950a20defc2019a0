//! The events that tell one state of a pad from the next.

use crate::event::{Event, EventType};
use crate::native_ev_codes;
use crate::native_ev_codes::{AXIS_COUNT, BUTTON_COUNT};
use crate::state::{StateView, AXIS_EPSILON};
use vstd::prelude::*;

verus! {

/// Whether an axis moved far enough to be reported.
pub open spec fn moved(was: i32, is: i32) -> bool {
    was - is > AXIS_EPSILON || is - was > AXIS_EPSILON
}

/// The event for button `i` when it becomes pressed or released.
pub open spec fn button_event(id: usize, i: int, pressed: bool) -> Event {
    let code = native_ev_codes::button_codes()[i];
    Event {
        id,
        event: if pressed {
            EventType::ButtonPressed(code)
        } else {
            EventType::ButtonReleased(code)
        },
    }
}

/// The event for axis `i` when it comes to stand at `value`.
pub open spec fn axis_event(id: usize, i: int, value: i32) -> Event {
    Event { id, event: EventType::AxisValueChanged(value, native_ev_codes::axis_codes()[i]) }
}

/// One event for each of the first `n` buttons that was pressed or released.
pub open spec fn button_changes(id: usize, was: StateView, now: StateView, n: nat) -> Seq<Event>
    decreases n,
{
    if n == 0 {
        Seq::empty()
    } else {
        let i = n - 1;
        let before = button_changes(id, was, now, i as nat);
        if was.buttons[i] != now.buttons[i] {
            before.push(button_event(id, i, now.buttons[i]))
        } else {
            before
        }
    }
}

/// One event for each of the first `n` axes that moved.
pub open spec fn axis_changes(id: usize, was: StateView, now: StateView, n: nat) -> Seq<Event>
    decreases n,
{
    if n == 0 {
        Seq::empty()
    } else {
        let i = n - 1;
        let before = axis_changes(id, was, now, i as nat);
        if moved(was.axes[i], now.axes[i]) {
            before.push(axis_event(id, i, now.axes[i]))
        } else {
            before
        }
    }
}

/// Everything that moved between two states of pad `id`: buttons first, then axes,
/// each in the order of its table.
pub open spec fn changes(id: usize, was: StateView, now: StateView) -> Seq<Event> {
    button_changes(id, was, now, BUTTON_COUNT as nat) + axis_changes(
        id,
        was,
        now,
        AXIS_COUNT as nat,
    )
}

/// A state with one event taken into account.
pub open spec fn apply(state: StateView, event: EventType) -> StateView {
    match event {
        EventType::ButtonPressed(code) => StateView {
            buttons: state.buttons.update(native_ev_codes::button_codes().index_of(code), true),
            ..state
        },
        EventType::ButtonReleased(code) => StateView {
            buttons: state.buttons.update(native_ev_codes::button_codes().index_of(code), false),
            ..state
        },
        EventType::AxisValueChanged(value, code) => StateView {
            axes: state.axes.update(native_ev_codes::axis_codes().index_of(code), value),
            ..state
        },
        EventType::Connected => state,
        EventType::Disconnected => state,
    }
}

/// A state with a sequence of events taken into account.
pub open spec fn replay(state: StateView, events: Seq<Event>) -> StateView
    decreases events.len(),
{
    if events.len() == 0 {
        state
    } else {
        apply(replay(state, events.drop_last()), events.last().event)
    }
}

/// Two states that a consumer cannot tell apart: the same buttons, and every axis
/// within [`AXIS_EPSILON`].
pub open spec fn indistinct(a: StateView, b: StateView) -> bool {
    &&& a.buttons == b.buttons
    &&& a.axes.len() == b.axes.len()
    &&& forall|i: int|
        0 <= i < a.axes.len() ==> !moved(#[trigger] a.axes[i], b.axes[i])
}

/// Whether an event speaks of pad `id` and of a control in the tables, and gives the
/// value that this control has in `now`.
pub open spec fn reports(id: usize, now: StateView, event: Event) -> bool {
    &&& event.id == id
    &&& match event.event {
        EventType::ButtonPressed(code) => exists|i: int|
            0 <= i < BUTTON_COUNT && #[trigger] native_ev_codes::button_codes()[i] == code
                && now.buttons[i],
        EventType::ButtonReleased(code) => exists|i: int|
            0 <= i < BUTTON_COUNT && #[trigger] native_ev_codes::button_codes()[i] == code
                && !now.buttons[i],
        EventType::AxisValueChanged(value, code) => exists|i: int|
            0 <= i < AXIS_COUNT && #[trigger] native_ev_codes::axis_codes()[i] == code
                && now.axes[i] == value,
        EventType::Connected => false,
        EventType::Disconnected => false,
    }
}

/// A pad that does not move, but for jitter of one count, reports nothing.
pub proof fn law_resting_pad_is_silent(id: usize, was: StateView, now: StateView)
    requires
        was.is_complete(),
        now.is_complete(),
        indistinct(was, now),
    ensures
        changes(id, was, now) == Seq::<Event>::empty(),
{
    lemma_no_button_changes(id, was, now, BUTTON_COUNT as nat);
    lemma_no_axis_changes(id, was, now, AXIS_COUNT as nat);
}

proof fn lemma_no_button_changes(id: usize, was: StateView, now: StateView, n: nat)
    requires
        was.buttons == now.buttons,
    ensures
        button_changes(id, was, now, n) == Seq::<Event>::empty(),
    decreases n,
{
    if n > 0 {
        lemma_no_button_changes(id, was, now, (n - 1) as nat);
    }
}

proof fn lemma_no_axis_changes(id: usize, was: StateView, now: StateView, n: nat)
    requires
        n <= was.axes.len(),
        indistinct(was, now),
    ensures
        axis_changes(id, was, now, n) == Seq::<Event>::empty(),
    decreases n,
{
    if n > 0 {
        lemma_no_axis_changes(id, was, now, (n - 1) as nat);
        assert(!moved(was.axes[n - 1], now.axes[n - 1]));
    }
}

/// Every reported change is of a control in the tables, of the right pad, and gives
/// the value that the control now has.
pub proof fn law_changes_are_true(id: usize, was: StateView, now: StateView)
    requires
        was.is_complete(),
        now.is_complete(),
    ensures
        forall|k: int|
            0 <= k < changes(id, was, now).len() ==> reports(
                id,
                now,
                #[trigger] changes(id, was, now)[k],
            ),
{
    lemma_button_changes_are_true(id, was, now, BUTTON_COUNT as nat);
    lemma_axis_changes_are_true(id, was, now, AXIS_COUNT as nat);
    let b = button_changes(id, was, now, BUTTON_COUNT as nat);
    let a = axis_changes(id, was, now, AXIS_COUNT as nat);
    assert forall|k: int| 0 <= k < changes(id, was, now).len() implies reports(
        id,
        now,
        #[trigger] changes(id, was, now)[k],
    ) by {
        if k < b.len() {
            assert(changes(id, was, now)[k] == b[k]);
        } else {
            assert(changes(id, was, now)[k] == a[k - b.len()]);
        }
    }
}

proof fn lemma_button_changes_are_true(id: usize, was: StateView, now: StateView, n: nat)
    requires
        n <= BUTTON_COUNT,
    ensures
        forall|k: int|
            0 <= k < button_changes(id, was, now, n).len() ==> reports(
                id,
                now,
                #[trigger] button_changes(id, was, now, n)[k],
            ),
    decreases n,
{
    if n > 0 {
        lemma_button_changes_are_true(id, was, now, (n - 1) as nat);
        let i = n - 1;
        let before = button_changes(id, was, now, i as nat);
        assert(reports(id, now, button_event(id, i, now.buttons[i])));
        assert forall|k: int| 0 <= k < button_changes(id, was, now, n).len() implies reports(
            id,
            now,
            #[trigger] button_changes(id, was, now, n)[k],
        ) by {
            if k < before.len() {
                assert(button_changes(id, was, now, n)[k] == before[k]);
            }
        }
    }
}

proof fn lemma_axis_changes_are_true(id: usize, was: StateView, now: StateView, n: nat)
    requires
        n <= AXIS_COUNT,
    ensures
        forall|k: int|
            0 <= k < axis_changes(id, was, now, n).len() ==> reports(
                id,
                now,
                #[trigger] axis_changes(id, was, now, n)[k],
            ),
    decreases n,
{
    if n > 0 {
        lemma_axis_changes_are_true(id, was, now, (n - 1) as nat);
        let i = n - 1;
        let before = axis_changes(id, was, now, i as nat);
        assert(reports(id, now, axis_event(id, i, now.axes[i])));
        assert forall|k: int| 0 <= k < axis_changes(id, was, now, n).len() implies reports(
            id,
            now,
            #[trigger] axis_changes(id, was, now, n)[k],
        ) by {
            if k < before.len() {
                assert(axis_changes(id, was, now, n)[k] == before[k]);
            }
        }
    }
}

/// Whoever knew the old state and takes the changes into account knows the new one:
/// every button exactly, and every axis that moved exactly and every other to
/// within [`AXIS_EPSILON`].
pub proof fn law_changes_tell_the_new_state(id: usize, was: StateView, now: StateView)
    requires
        was.is_complete(),
        now.is_complete(),
    ensures
        indistinct(replay(was, changes(id, was, now)), now),
{
    let b = button_changes(id, was, now, BUTTON_COUNT as nat);
    lemma_replay_buttons(id, was, now, BUTTON_COUNT as nat);
    lemma_replay_axes(id, was, now, replay(was, b), AXIS_COUNT as nat);
    lemma_replay_append(was, b, axis_changes(id, was, now, AXIS_COUNT as nat));
    assert(replay(was, changes(id, was, now)).buttons =~= now.buttons);
}

proof fn lemma_replay_append(state: StateView, first: Seq<Event>, second: Seq<Event>)
    ensures
        replay(state, first + second) == replay(replay(state, first), second),
    decreases second.len(),
{
    if second.len() == 0 {
        assert(first + second =~= first);
    } else {
        assert((first + second).drop_last() =~= first + second.drop_last());
        lemma_replay_append(state, first, second.drop_last());
    }
}

proof fn lemma_replay_buttons(id: usize, was: StateView, now: StateView, n: nat)
    requires
        was.is_complete(),
        now.is_complete(),
        n <= BUTTON_COUNT,
    ensures
        ({
            let after = replay(was, button_changes(id, was, now, n));
            &&& after.axes == was.axes
            &&& after.buttons.len() == BUTTON_COUNT
            &&& forall|i: int| 0 <= i < n ==> after.buttons[i] == now.buttons[i]
            &&& forall|i: int| n <= i < BUTTON_COUNT ==> after.buttons[i] == was.buttons[i]
        }),
    decreases n,
{
    if n > 0 {
        let i = n - 1;
        lemma_replay_buttons(id, was, now, i as nat);
        native_ev_codes::law_codes_are_distinct();
        let codes = native_ev_codes::button_codes();
        assert(codes.contains(codes[i]));
        assert(codes.index_of(codes[i]) == i);
        let before = button_changes(id, was, now, i as nat);
        if was.buttons[i] != now.buttons[i] {
            let event = button_event(id, i, now.buttons[i]);
            assert(before.push(event).drop_last() =~= before);
        }
    }
}

proof fn lemma_replay_axes(id: usize, was: StateView, now: StateView, start: StateView, n: nat)
    requires
        was.is_complete(),
        now.is_complete(),
        start.axes == was.axes,
        n <= AXIS_COUNT,
    ensures
        ({
            let after = replay(start, axis_changes(id, was, now, n));
            &&& after.buttons == start.buttons
            &&& after.axes.len() == AXIS_COUNT
            &&& forall|i: int| 0 <= i < n ==> !moved(#[trigger] after.axes[i], now.axes[i])
            &&& forall|i: int|
                n <= i < AXIS_COUNT ==> (#[trigger] after.axes[i]) == was.axes[i]
        }),
    decreases n,
{
    if n > 0 {
        let i = n - 1;
        lemma_replay_axes(id, was, now, start, i as nat);
        native_ev_codes::law_codes_are_distinct();
        let codes = native_ev_codes::axis_codes();
        assert(codes.contains(codes[i]));
        assert(codes.index_of(codes[i]) == i);
        let before = axis_changes(id, was, now, i as nat);
        let kept = replay(start, before);
        assert(kept.axes[i] == was.axes[i]);
        if moved(was.axes[i], now.axes[i]) {
            let event = axis_event(id, i, now.axes[i]);
            assert(before.push(event).drop_last() =~= before);
        }
    }
}

/// The place of the control that an event is of, in the order of a report: the buttons
/// by their table, and then the axes by theirs.
pub open spec fn place(event: EventType) -> int {
    match event {
        EventType::ButtonPressed(code) => native_ev_codes::button_codes().index_of(code),
        EventType::ButtonReleased(code) => native_ev_codes::button_codes().index_of(code),
        EventType::AxisValueChanged(value, code) => 15 + native_ev_codes::axis_codes().index_of(
            code,
        ),
        _ => -1,
    }
}

/// Whether the event is of a control that changed, and says how: a button that went
/// down or up, or an axis that moved by more than one count, with the value it has now.
pub open spec fn is_of_a_change(was: StateView, now: StateView, event: EventType) -> bool {
    match event {
        EventType::ButtonPressed(code) => exists|i: int|
            0 <= i < 15 && #[trigger] native_ev_codes::button_codes()[i] == code && !was.buttons[i]
                && now.buttons[i],
        EventType::ButtonReleased(code) => exists|i: int|
            0 <= i < 15 && #[trigger] native_ev_codes::button_codes()[i] == code && was.buttons[i]
                && !now.buttons[i],
        EventType::AxisValueChanged(value, code) => exists|i: int|
            0 <= i < 6 && #[trigger] native_ev_codes::axis_codes()[i] == code && now.axes[i]
                == value && (now.axes[i] - was.axes[i] > 1 || was.axes[i] - now.axes[i] > 1),
        _ => false,
    }
}

/// Whether one of the events is the given one, of the given pad.
pub open spec fn tells(id: usize, events: Seq<Event>, event: EventType) -> bool {
    exists|k: int|
        0 <= k < events.len() && (#[trigger] events[k]).id == id && events[k].event == event
}

/// Whether the events are a full and true account of what happened to pad `id` between
/// two states: each is of that pad and of a control that changed, every control that
/// changed is told of, and no control twice, in the order of the tables.
pub open spec fn is_account(
    id: usize,
    was: StateView,
    now: StateView,
    events: Seq<Event>,
) -> bool {
    &&& forall|k: int| 0 <= k < events.len() ==> (#[trigger] events[k]).id == id
    &&& forall|k: int|
        0 <= k < events.len() ==> is_of_a_change(was, now, (#[trigger] events[k]).event)
    &&& forall|i: int|
        0 <= i < 15 && !(#[trigger] was.buttons[i]) && now.buttons[i] ==> tells(
            id,
            events,
            EventType::ButtonPressed(native_ev_codes::button_codes()[i]),
        )
    &&& forall|i: int|
        0 <= i < 15 && (#[trigger] was.buttons[i]) && !now.buttons[i] ==> tells(
            id,
            events,
            EventType::ButtonReleased(native_ev_codes::button_codes()[i]),
        )
    &&& forall|i: int|
        0 <= i < 6 && (now.axes[i] - (#[trigger] was.axes[i]) > 1 || was.axes[i] - now.axes[i] > 1)
            ==> tells(
            id,
            events,
            EventType::AxisValueChanged(now.axes[i], native_ev_codes::axis_codes()[i]),
        )
    &&& forall|j: int, k: int|
        0 <= j < k < events.len() ==> place((#[trigger] events[j]).event) < place(
            (#[trigger] events[k]).event,
        )
}

proof fn lemma_place_of_button(i: int)
    requires
        0 <= i < 15,
    ensures
        native_ev_codes::button_codes().index_of(native_ev_codes::button_codes()[i]) == i,
{
    native_ev_codes::law_codes_are_distinct();
    let codes = native_ev_codes::button_codes();
    assert(codes.contains(codes[i]));
}

proof fn lemma_place_of_axis(i: int)
    requires
        0 <= i < 6,
    ensures
        native_ev_codes::axis_codes().index_of(native_ev_codes::axis_codes()[i]) == i,
{
    native_ev_codes::law_codes_are_distinct();
    let codes = native_ev_codes::axis_codes();
    assert(codes.contains(codes[i]));
}

proof fn lemma_button_account(id: usize, was: StateView, now: StateView, n: nat)
    requires
        n <= 15,
    ensures
        ({
            let events = button_changes(id, was, now, n);
            &&& forall|k: int|
                0 <= k < events.len() ==> (#[trigger] events[k]).id == id && is_of_a_change(
                    was,
                    now,
                    events[k].event,
                ) && 0 <= place(events[k].event) < n
            &&& forall|i: int|
                0 <= i < n && (#[trigger] was.buttons[i]) != now.buttons[i] ==> tells(
                    id,
                    events,
                    button_event(id, i, now.buttons[i]).event,
                )
            &&& forall|j: int, k: int|
                0 <= j < k < events.len() ==> place((#[trigger] events[j]).event) < place(
                    (#[trigger] events[k]).event,
                )
        }),
    decreases n,
{
    if n > 0 {
        let i = n - 1;
        lemma_button_account(id, was, now, i as nat);
        lemma_place_of_button(i);
        let before = button_changes(id, was, now, i as nat);
        let events = button_changes(id, was, now, n);
        if was.buttons[i] != now.buttons[i] {
            let event = button_event(id, i, now.buttons[i]);
            assert(events == before.push(event));
            assert(events[before.len() as int] == event);
            assert(native_ev_codes::button_codes()[i] == native_ev_codes::button_codes()[i]);
            assert(is_of_a_change(was, now, event.event));
        }
        assert forall|k: int| 0 <= k < before.len() implies events[k] == #[trigger] before[k] by {
        }
        assert forall|m: int|
            0 <= m < n && (#[trigger] was.buttons[m]) != now.buttons[m] implies tells(
            id,
            events,
            button_event(id, m, now.buttons[m]).event,
        ) by {
            if m < i {
                let told = button_event(id, m, now.buttons[m]).event;
                assert(tells(id, before, told));
                let k = choose|k: int|
                    0 <= k < before.len() && (#[trigger] before[k]).id == id && before[k].event
                        == told;
                assert(events[k] == before[k]);
            }
        }
    }
}

proof fn lemma_axis_account(id: usize, was: StateView, now: StateView, n: nat)
    requires
        n <= 6,
    ensures
        ({
            let events = axis_changes(id, was, now, n);
            &&& forall|k: int|
                0 <= k < events.len() ==> (#[trigger] events[k]).id == id && is_of_a_change(
                    was,
                    now,
                    events[k].event,
                ) && 15 <= place(events[k].event) < 15 + n
            &&& forall|i: int|
                0 <= i < n && (now.axes[i] - (#[trigger] was.axes[i]) > 1 || was.axes[i]
                    - now.axes[i] > 1) ==> tells(
                    id,
                    events,
                    axis_event(id, i, now.axes[i]).event,
                )
            &&& forall|j: int, k: int|
                0 <= j < k < events.len() ==> place((#[trigger] events[j]).event) < place(
                    (#[trigger] events[k]).event,
                )
        }),
    decreases n,
{
    if n > 0 {
        let i = n - 1;
        lemma_axis_account(id, was, now, i as nat);
        lemma_place_of_axis(i);
        let before = axis_changes(id, was, now, i as nat);
        let events = axis_changes(id, was, now, n);
        if moved(was.axes[i], now.axes[i]) {
            let event = axis_event(id, i, now.axes[i]);
            assert(events == before.push(event));
            assert(events[before.len() as int] == event);
            assert(native_ev_codes::axis_codes()[i] == native_ev_codes::axis_codes()[i]);
            assert(is_of_a_change(was, now, event.event));
        }
        assert forall|k: int| 0 <= k < before.len() implies events[k] == #[trigger] before[k] by {
        }
        assert forall|m: int|
            0 <= m < n && (now.axes[m] - (#[trigger] was.axes[m]) > 1 || was.axes[m] - now.axes[m]
                > 1) implies tells(id, events, axis_event(id, m, now.axes[m]).event) by {
            if m < i {
                let told = axis_event(id, m, now.axes[m]).event;
                assert(tells(id, before, told));
                let k = choose|k: int|
                    0 <= k < before.len() && (#[trigger] before[k]).id == id && before[k].event
                        == told;
                assert(events[k] == before[k]);
            }
        }
    }
}

proof fn lemma_tells_append(
    id: usize,
    first: Seq<Event>,
    second: Seq<Event>,
    event: EventType,
)
    requires
        tells(id, first, event) || tells(id, second, event),
    ensures
        tells(id, first + second, event),
{
    if tells(id, first, event) {
        let k = choose|k: int|
            0 <= k < first.len() && (#[trigger] first[k]).id == id && first[k].event == event;
        assert((first + second)[k] == first[k]);
    } else {
        let k = choose|k: int|
            0 <= k < second.len() && (#[trigger] second[k]).id == id && second[k].event == event;
        assert((first + second)[first.len() + k] == second[k]);
    }
}

/// What is reported between two states is a full and true account: every control that
/// changed, each once, in the order of the tables, and nothing of any other control.
pub proof fn law_changes_are_an_account(id: usize, was: StateView, now: StateView)
    ensures
        is_account(id, was, now, changes(id, was, now)),
{
    let b = button_changes(id, was, now, 15);
    let a = axis_changes(id, was, now, 6);
    let events = changes(id, was, now);
    lemma_button_account(id, was, now, 15);
    lemma_axis_account(id, was, now, 6);
    assert(events == b + a);
    assert forall|k: int| 0 <= k < events.len() implies events[k] == if k < b.len() {
        b[k]
    } else {
        a[k - b.len()]
    } by {
    }
    assert forall|i: int|
        0 <= i < 15 && (#[trigger] was.buttons[i]) != now.buttons[i] implies tells(
        id,
        events,
        button_event(id, i, now.buttons[i]).event,
    ) by {
        lemma_tells_append(id, b, a, button_event(id, i, now.buttons[i]).event);
    }
    assert forall|i: int|
        0 <= i < 6 && (now.axes[i] - (#[trigger] was.axes[i]) > 1 || was.axes[i] - now.axes[i]
            > 1) implies tells(id, events, axis_event(id, i, now.axes[i]).event) by {
        lemma_tells_append(id, b, a, axis_event(id, i, now.axes[i]).event);
    }
}

} // verus!

//! What a pad reads as.

use crate::binary32;
use crate::ev_code::EvCode;
use crate::native_ev_codes;
use crate::native_ev_codes::{AXIS_COUNT, BUTTON_COUNT};
use vstd::prelude::*;

verus! {

/// How much an axis must move before it is worth an event.
///
/// A resting stick is re-reported with tiny jitter, and pads are polled, so without
/// a floor every poll of an untouched pad would report its sticks. One count is
/// below what any consumer can resolve and still collapses the jitter.
pub const AXIS_EPSILON: i32 = 1;

/// The value of every control of an extended gamepad profile, each as the bit
/// pattern of a 32-bit float (see [`crate::binary32`]). A control that the pad does
/// not have is `None`.
#[derive(Copy, Clone, Debug)]
pub struct Readings {
    pub button_a: u32,
    pub button_b: u32,
    pub button_x: u32,
    pub button_y: u32,
    pub left_shoulder: u32,
    pub right_shoulder: u32,
    pub button_options: Option<u32>,
    pub button_menu: u32,
    pub button_home: Option<u32>,
    pub left_thumbstick_button: Option<u32>,
    pub right_thumbstick_button: Option<u32>,
    pub dpad_up: u32,
    pub dpad_down: u32,
    pub dpad_left: u32,
    pub dpad_right: u32,
    pub left_thumbstick_x: u32,
    pub left_thumbstick_y: u32,
    pub right_thumbstick_x: u32,
    pub right_thumbstick_y: u32,
    pub left_trigger: u32,
    pub right_trigger: u32,
}

/// The value of a control, where one that is missing reads as 0.0.
pub open spec fn value_or_zero(control: Option<u32>) -> u32 {
    match control {
        Some(bits) => bits,
        None => 0,
    }
}

impl Readings {
    /// The values of the buttons, in the order of
    /// [`crate::native_ev_codes::button_codes`]: on this profile A is the southern face
    /// button, B the eastern, X the western and Y the northern one, and Options,
    /// Menu and Home are Select, Start and Mode.
    pub open spec fn button_values(self) -> Seq<u32> {
        seq![
            self.button_a,
            self.button_b,
            self.button_x,
            self.button_y,
            self.left_shoulder,
            self.right_shoulder,
            value_or_zero(self.button_options),
            self.button_menu,
            value_or_zero(self.button_home),
            value_or_zero(self.left_thumbstick_button),
            value_or_zero(self.right_thumbstick_button),
            self.dpad_up,
            self.dpad_down,
            self.dpad_left,
            self.dpad_right,
        ]
    }

    /// The values of the axes, in the order of [`crate::native_ev_codes::axis_codes`].
    pub open spec fn axis_values(self) -> Seq<u32> {
        seq![
            self.left_thumbstick_x,
            self.left_thumbstick_y,
            self.right_thumbstick_x,
            self.right_thumbstick_y,
            self.left_trigger,
            self.right_trigger,
        ]
    }

    /// What a pad with these values reads as.
    pub open spec fn state(self) -> StateView {
        StateView {
            buttons: self.button_values().map_values(|bits: u32| binary32::more_than_half(bits)),
            axes: self.axis_values().map_values(|bits: u32| binary32::in_counts(bits) as i32),
        }
    }
}

/// Everything read off one pad: which buttons are pressed, and where the axes are.
#[derive(Copy, Clone, Debug, PartialEq)]
pub struct State {
    pub buttons: [bool; BUTTON_COUNT],
    pub axes: [i32; AXIS_COUNT],
}

/// The contents of a [`State`].
#[verifier::ext_equal]
pub struct StateView {
    pub buttons: Seq<bool>,
    pub axes: Seq<i32>,
}

impl View for State {
    type V = StateView;

    open spec fn view(&self) -> StateView {
        StateView { buttons: self.buttons@, axes: self.axes@ }
    }
}

impl StateView {
    /// Whether there is an entry for every button and every axis.
    pub open spec fn is_complete(self) -> bool {
        self.buttons.len() == BUTTON_COUNT && self.axes.len() == AXIS_COUNT
    }
}

impl Default for State {
    /// Nothing pressed, every axis at zero.
    fn default() -> (state: State)
        ensures
            state@.is_complete(),
            forall|i: int| 0 <= i < BUTTON_COUNT ==> !state@.buttons[i],
            forall|i: int| 0 <= i < AXIS_COUNT ==> state@.axes[i] == 0,
    {
        State { buttons: [false; BUTTON_COUNT], axes: [0; AXIS_COUNT] }
    }
}

fn or_zero(control: Option<u32>) -> (bits: u32)
    ensures
        bits == value_or_zero(control),
{
    match control {
        Some(bits) => bits,
        None => 0,
    }
}

impl State {
    /// What a pad with the given values reads as: a button is pressed above half
    /// scale, a missing button is released, and an axis is in counts.
    pub fn read(g: &Readings) -> (state: State)
        ensures
            state@ == g.state(),
            state.buttons[0] == binary32::more_than_half(g.button_a),
            state.buttons[1] == binary32::more_than_half(g.button_b),
            state.buttons[2] == binary32::more_than_half(g.button_x),
            state.buttons[3] == binary32::more_than_half(g.button_y),
            state.buttons[4] == binary32::more_than_half(g.left_shoulder),
            state.buttons[5] == binary32::more_than_half(g.right_shoulder),
            state.buttons[6] == (g.button_options is Some && binary32::more_than_half(
                g.button_options->0,
            )),
            state.buttons[7] == binary32::more_than_half(g.button_menu),
            state.buttons[8] == (g.button_home is Some && binary32::more_than_half(
                g.button_home->0,
            )),
            state.buttons[9] == (g.left_thumbstick_button is Some && binary32::more_than_half(
                g.left_thumbstick_button->0,
            )),
            state.buttons[10] == (g.right_thumbstick_button is Some && binary32::more_than_half(
                g.right_thumbstick_button->0,
            )),
            state.buttons[11] == binary32::more_than_half(g.dpad_up),
            state.buttons[12] == binary32::more_than_half(g.dpad_down),
            state.buttons[13] == binary32::more_than_half(g.dpad_left),
            state.buttons[14] == binary32::more_than_half(g.dpad_right),
            state.axes[0] == binary32::in_counts(g.left_thumbstick_x),
            state.axes[1] == binary32::in_counts(g.left_thumbstick_y),
            state.axes[2] == binary32::in_counts(g.right_thumbstick_x),
            state.axes[3] == binary32::in_counts(g.right_thumbstick_y),
            state.axes[4] == binary32::in_counts(g.left_trigger),
            state.axes[5] == binary32::in_counts(g.right_trigger),
    {
        let pressed: [u32; BUTTON_COUNT] = [
            g.button_a,
            g.button_b,
            g.button_x,
            g.button_y,
            g.left_shoulder,
            g.right_shoulder,
            or_zero(g.button_options),
            g.button_menu,
            or_zero(g.button_home),
            or_zero(g.left_thumbstick_button),
            or_zero(g.right_thumbstick_button),
            g.dpad_up,
            g.dpad_down,
            g.dpad_left,
            g.dpad_right,
        ];
        assert(pressed@ =~= g.button_values());
        let mut state: State = State::default();
        for i in 0..BUTTON_COUNT
            invariant
                pressed@ == g.button_values(),
                forall|j: int|
                    0 <= j < i ==> state.buttons[j] == binary32::more_than_half(pressed[j]),
        {
            state.buttons[i] = binary32::pressed(pressed[i]);
        }
        state.axes = [
            binary32::scaled(g.left_thumbstick_x),
            binary32::scaled(g.left_thumbstick_y),
            binary32::scaled(g.right_thumbstick_x),
            binary32::scaled(g.right_thumbstick_y),
            binary32::scaled(g.left_trigger),
            binary32::scaled(g.right_trigger),
        ];
        assert(state@.axes =~= g.state().axes);
        assert(state@.buttons =~= g.state().buttons);
        proof {
            binary32::law_half_in_bits(0);
        }
        state
    }
}

/// The place of a button in the table of buttons.
pub open spec fn place_of_button(code: u8) -> int {
    native_ev_codes::button_codes().index_of(EvCode(code))
}

/// The place of an axis in the table of axes.
pub open spec fn place_of_axis(code: u8) -> int {
    native_ev_codes::axis_codes().index_of(EvCode(code))
}

/// The state at the place of a code is that of the one control that the code names,
/// whatever the other controls read. A button that the pad does not have is released.
pub proof fn law_each_control_has_its_place(g: Readings)
    ensures
        g.state().is_complete(),
        g.state().buttons[place_of_button(native_ev_codes::BTN_SOUTH)] == binary32::more_than_half(
            g.button_a,
        ),
        g.state().buttons[place_of_button(native_ev_codes::BTN_EAST)] == binary32::more_than_half(
            g.button_b,
        ),
        g.state().buttons[place_of_button(native_ev_codes::BTN_WEST)] == binary32::more_than_half(
            g.button_x,
        ),
        g.state().buttons[place_of_button(native_ev_codes::BTN_NORTH)] == binary32::more_than_half(
            g.button_y,
        ),
        g.state().buttons[place_of_button(native_ev_codes::BTN_LT)] == binary32::more_than_half(
            g.left_shoulder,
        ),
        g.state().buttons[place_of_button(native_ev_codes::BTN_RT)] == binary32::more_than_half(
            g.right_shoulder,
        ),
        g.state().buttons[place_of_button(native_ev_codes::BTN_SELECT)] == (
        g.button_options is Some && binary32::more_than_half(g.button_options->0)),
        g.state().buttons[place_of_button(native_ev_codes::BTN_START)] == binary32::more_than_half(
            g.button_menu,
        ),
        g.state().buttons[place_of_button(native_ev_codes::BTN_MODE)] == (
        g.button_home is Some && binary32::more_than_half(g.button_home->0)),
        g.state().buttons[place_of_button(native_ev_codes::BTN_LTHUMB)] == (
        g.left_thumbstick_button is Some && binary32::more_than_half(g.left_thumbstick_button->0)),
        g.state().buttons[place_of_button(native_ev_codes::BTN_RTHUMB)] == (
        g.right_thumbstick_button is Some && binary32::more_than_half(
            g.right_thumbstick_button->0,
        )),
        g.state().buttons[place_of_button(native_ev_codes::BTN_DPAD_UP)]
            == binary32::more_than_half(g.dpad_up),
        g.state().buttons[place_of_button(native_ev_codes::BTN_DPAD_DOWN)]
            == binary32::more_than_half(g.dpad_down),
        g.state().buttons[place_of_button(native_ev_codes::BTN_DPAD_LEFT)]
            == binary32::more_than_half(g.dpad_left),
        g.state().buttons[place_of_button(native_ev_codes::BTN_DPAD_RIGHT)]
            == binary32::more_than_half(g.dpad_right),
        g.state().axes[place_of_axis(native_ev_codes::AXIS_LSTICKX)] == binary32::in_counts(
            g.left_thumbstick_x,
        ),
        g.state().axes[place_of_axis(native_ev_codes::AXIS_LSTICKY)] == binary32::in_counts(
            g.left_thumbstick_y,
        ),
        g.state().axes[place_of_axis(native_ev_codes::AXIS_RSTICKX)] == binary32::in_counts(
            g.right_thumbstick_x,
        ),
        g.state().axes[place_of_axis(native_ev_codes::AXIS_RSTICKY)] == binary32::in_counts(
            g.right_thumbstick_y,
        ),
        g.state().axes[place_of_axis(native_ev_codes::AXIS_LT2)] == binary32::in_counts(
            g.left_trigger,
        ),
        g.state().axes[place_of_axis(native_ev_codes::AXIS_RT2)] == binary32::in_counts(
            g.right_trigger,
        ),
{
    native_ev_codes::law_codes_are_distinct();
    let buttons = native_ev_codes::button_codes();
    let axes = native_ev_codes::axis_codes();
    assert(buttons[0] == EvCode(native_ev_codes::BTN_SOUTH));
    assert(buttons[1] == EvCode(native_ev_codes::BTN_EAST));
    assert(buttons[2] == EvCode(native_ev_codes::BTN_WEST));
    assert(buttons[3] == EvCode(native_ev_codes::BTN_NORTH));
    assert(buttons[4] == EvCode(native_ev_codes::BTN_LT));
    assert(buttons[5] == EvCode(native_ev_codes::BTN_RT));
    assert(buttons[6] == EvCode(native_ev_codes::BTN_SELECT));
    assert(buttons[7] == EvCode(native_ev_codes::BTN_START));
    assert(buttons[8] == EvCode(native_ev_codes::BTN_MODE));
    assert(buttons[9] == EvCode(native_ev_codes::BTN_LTHUMB));
    assert(buttons[10] == EvCode(native_ev_codes::BTN_RTHUMB));
    assert(buttons[11] == EvCode(native_ev_codes::BTN_DPAD_UP));
    assert(buttons[12] == EvCode(native_ev_codes::BTN_DPAD_DOWN));
    assert(buttons[13] == EvCode(native_ev_codes::BTN_DPAD_LEFT));
    assert(buttons[14] == EvCode(native_ev_codes::BTN_DPAD_RIGHT));
    assert(axes[0] == EvCode(native_ev_codes::AXIS_LSTICKX));
    assert(axes[1] == EvCode(native_ev_codes::AXIS_LSTICKY));
    assert(axes[2] == EvCode(native_ev_codes::AXIS_RSTICKX));
    assert(axes[3] == EvCode(native_ev_codes::AXIS_RSTICKY));
    assert(axes[4] == EvCode(native_ev_codes::AXIS_LT2));
    assert(axes[5] == EvCode(native_ev_codes::AXIS_RT2));
    binary32::law_half_in_bits(0);
}

} // verus!

//! One pad.

use crate::binary32;
use crate::binary32::AXIS_MAX;
use crate::changes;
use crate::ev_code::EvCode;
use crate::event::{Event, EventType};
use crate::native_ev_codes;
use crate::native_ev_codes::{AXIS_COUNT, BUTTON_COUNT};
use crate::state::{Readings, State, StateView, AXIS_EPSILON};
use vstd::prelude::*;

verus! {

/// The range that the values of an axis lie in.
#[derive(Copy, Clone, Debug, PartialEq, Eq, Structural)]
pub struct AxisInfo {
    pub min: i32,
    pub max: i32,
    pub deadzone: Option<u32>,
}

/// Where a pad gets its power from.
#[derive(Copy, Clone, Debug, PartialEq, Eq, Structural)]
pub enum PowerInfo {
    Unknown,
    Wired,
}

/// The force-feedback side of a pad, which does nothing here.
#[derive(Copy, Clone, Debug, PartialEq, Eq, Structural)]
pub struct FfDevice;

/// One pad, as it was when it was last read.
pub struct Gamepad {
    /// The address of the controller object, see [`Gamepad::is`].
    controller: usize,
    name: String,
    is_connected: bool,
    state: State,
}

/// The contents of a [`Gamepad`].
#[verifier::ext_equal]
pub struct GamepadView {
    pub controller: usize,
    pub name: Seq<char>,
    pub is_connected: bool,
    pub state: StateView,
}

impl View for Gamepad {
    type V = GamepadView;

    closed spec fn view(&self) -> GamepadView {
        GamepadView {
            controller: self.controller,
            name: self.name@,
            is_connected: self.is_connected,
            state: self.state@,
        }
    }
}

/// The name of a pad: the one its vendor gave it, or a stand-in.
pub open spec fn display_name(vendor_name: Option<String>) -> Seq<char> {
    match vendor_name {
        Some(name) => name@,
        None => "Unknown Controller"@,
    }
}

/// The range of the axis with code `nec`, where the pad has such an axis.
///
/// A stick is bipolar, and its range is symmetric. A trigger is unipolar: with a
/// negative floor a resting trigger would count as half-pressed.
pub open spec fn axis_range(nec: EvCode) -> Option<AxisInfo> {
    if nec == EvCode(native_ev_codes::AXIS_LT2) || nec == EvCode(native_ev_codes::AXIS_RT2) {
        Some(AxisInfo { min: 0, max: AXIS_MAX, deadzone: None })
    } else if native_ev_codes::axis_codes().contains(nec) {
        Some(AxisInfo { min: (-AXIS_MAX) as i32, max: AXIS_MAX, deadzone: None })
    } else {
        None
    }
}

/// The nil UUID as a number.
///
/// Calls `uuid::Uuid::nil`, and `uuid::Uuid::as_u128` to turn it into a number. The
/// claim is that all 128 bits of the nil UUID are zero.
#[verifier::external_body]
fn nil_uuid() -> (bits: u128)
    ensures
        bits == 0,
{
    uuid::Uuid::nil().as_u128()
}

impl Gamepad {
    /// Every pad, wherever it comes from, has a value for each button and each axis.
    pub proof fn law_state_is_complete(&self)
        ensures
            self@.state.is_complete(),
    {
    }

    /// A pad that was just found, connected, with the state that it has now.
    ///
    /// The state is taken from the live pad and not from [`State::default`], so that
    /// a button that is held already does not arrive as a press.
    pub fn new(controller: usize, vendor_name: Option<String>, readings: &Readings) -> (this:
        Gamepad)
        ensures
            this@ == (GamepadView {
                controller,
                name: display_name(vendor_name),
                is_connected: true,
                state: readings.state(),
            }),
            vendor_name is Some ==> this@.name == vendor_name->0@,
            vendor_name is None ==> this@.name == "Unknown Controller"@,
    {
        let name: String = match vendor_name {
            Some(name) => name,
            None => "Unknown Controller".to_owned(),
        };
        Gamepad { controller, name, is_connected: true, state: State::read(readings) }
    }

    /// Whether `other` is the address of the controller object of this pad.
    ///
    /// The framework hands out the same object for as long as a pad stays connected,
    /// and there is nothing better to know a pad by: vendor names are not unique, and
    /// the vendor and product numbers are masked.
    pub fn is(&self, other: usize) -> (same: bool)
        ensures
            same == (self@.controller == other),
    {
        self.controller == other
    }

    /// Takes a new reading of pad `id` and appends an event for everything that moved.
    /// The travel of an axis is found in 64 bits, where any two values have a distance.
    pub fn diff(&mut self, id: usize, readings: &Readings, out: &mut Vec<Event>)
        ensures
            final(out)@ == old(out)@ + changes::changes(id, old(self)@.state, readings.state()),
            final(self)@ == (GamepadView { state: readings.state(), ..old(self)@ }),
            changes::is_account(
                id,
                old(self)@.state,
                final(self)@.state,
                final(out)@.skip(old(out)@.len() as int),
            ),
            changes::indistinct(
                changes::replay(old(self)@.state, final(out)@.skip(old(out)@.len() as int)),
                final(self)@.state,
            ),
    {
        let now: State = State::read(readings);
        let buttons = native_ev_codes::buttons();
        let axes = native_ev_codes::axes();
        let ghost was = self.state@;
        let ghost start = out@;
        for i in 0..BUTTON_COUNT
            invariant
                was == self.state@,
                buttons@ == native_ev_codes::button_codes(),
                out@ == start + changes::button_changes(id, was, now@, i as nat),
        {
            let is: bool = now.buttons[i];
            if self.state.buttons[i] != is {
                let code: EvCode = buttons[i];
                out.push(
                    Event::new(
                        id,
                        if is {
                            EventType::ButtonPressed(code)
                        } else {
                            EventType::ButtonReleased(code)
                        },
                    ),
                );
            }
            proof {
                assert(out@ =~= start + changes::button_changes(id, was, now@, (i + 1) as nat));
            }
        }
        let ghost middle = out@;
        for i in 0..AXIS_COUNT
            invariant
                was == self.state@,
                axes@ == native_ev_codes::axis_codes(),
                out@ == middle + changes::axis_changes(id, was, now@, i as nat),
        {
            let is: i32 = now.axes[i];
            let travel: i64 = self.state.axes[i] as i64 - is as i64;
            if travel > AXIS_EPSILON as i64 || travel < -(AXIS_EPSILON as i64) {
                out.push(Event::new(id, EventType::AxisValueChanged(is, axes[i])));
            }
            proof {
                assert(out@ =~= middle + changes::axis_changes(id, was, now@, (i + 1) as nat));
            }
        }
        self.state = now;
        proof {
            assert(out@ =~= start + changes::changes(id, was, now@));
            assert(out@.skip(start.len() as int) =~= changes::changes(id, was, now@));
            changes::law_changes_are_an_account(id, was, now@);
            changes::law_changes_tell_the_new_state(id, was, now@);
        }
    }

    /// Records whether the pad is there.
    pub(crate) fn set_connected(&mut self, is_connected: bool)
        ensures
            final(self)@ == (GamepadView { is_connected, ..old(self)@ }),
    {
        self.is_connected = is_connected;
    }

    /// The name of the pad, for people to read.
    pub fn name(&self) -> (name: &str)
        ensures
            name@ == self@.name,
    {
        self.name.as_str()
    }

    /// The UUID of the pad as a 128-bit number, which is always the nil UUID.
    ///
    /// Nil on purpose: it matches no entry of a mapping database, so that the default
    /// mapping is used, which the codes of [`native_ev_codes`] are right for. A real
    /// UUID could hit an entry made for another order of buttons.
    pub fn uuid(&self) -> (bits: u128)
        ensures
            bits == 0,
    {
        nil_uuid()
    }

    /// `None`: GameController masks the real number, and an invented one would be a
    /// lie that a mapping could act on.
    pub fn vendor_id(&self) -> (id: Option<u16>)
        ensures
            id is None,
    {
        None
    }

    /// `None`, for the reason that [`Gamepad::vendor_id`] gives.
    pub fn product_id(&self) -> (id: Option<u16>)
        ensures
            id is None,
    {
        None
    }

    /// Where the pad gets its power from, given whether its controller reports to be
    /// attached to the device. A pad that is not says nothing more.
    pub fn power_info(&self, is_attached_to_device: bool) -> (info: PowerInfo)
        ensures
            info == (if is_attached_to_device {
                PowerInfo::Wired
            } else {
                PowerInfo::Unknown
            }),
    {
        if is_attached_to_device {
            PowerInfo::Wired
        } else {
            PowerInfo::Unknown
        }
    }

    /// Force feedback is not supported.
    pub fn is_ff_supported(&self) -> (supported: bool)
        ensures
            !supported,
    {
        false
    }

    /// The force-feedback side of the pad. There always is one.
    pub fn ff_device(&self) -> (device: Option<FfDevice>)
        ensures
            device == Some(FfDevice),
    {
        Some(FfDevice)
    }

    /// The codes of the buttons.
    pub fn buttons(&self) -> (codes: &[EvCode])
        ensures
            codes@ == native_ev_codes::button_codes(),
            codes@.map_values(|code: EvCode| code.0 as int) == seq![
                12int, 13, 16, 15, 18, 19, 22, 23, 24, 25, 26, 27, 28, 29, 30,
            ],
    {
        proof {
            native_ev_codes::law_numbers();
        }
        native_ev_codes::buttons()
    }

    /// The codes of the axes.
    pub fn axes(&self) -> (codes: &[EvCode])
        ensures
            codes@ == native_ev_codes::axis_codes(),
            codes@.map_values(|code: EvCode| code.0 as int) == seq![0int, 1, 3, 4, 11, 10],
    {
        proof {
            native_ev_codes::law_numbers();
        }
        native_ev_codes::axes()
    }

    /// The range of the axis with code `nec`. There is an answer for every code that
    /// an axis event can hold (see [`law_reported_axes_have_a_range`]).
    pub fn axis_info(&self, nec: EvCode) -> (info: Option<&AxisInfo>)
        ensures
            match info {
                Some(info) => axis_range(nec) == Some(*info),
                None => axis_range(nec) is None,
            },
            info is Some <==> nec.0 == 0 || nec.0 == 1 || nec.0 == 3 || nec.0 == 4 || nec.0 == 10
                || nec.0 == 11,
            info is Some ==> info->0.max == 32767 && info->0.deadzone is None,
            info is Some ==> info->0.min == (if nec.0 < 10 {
                -32767int
            } else {
                0
            }),
    {
        proof {
            law_axis_ranges(nec);
        }
        if nec == EvCode(native_ev_codes::AXIS_LT2) || nec == EvCode(native_ev_codes::AXIS_RT2) {
            return Some(&AxisInfo { min: 0, max: AXIS_MAX, deadzone: None });
        }
        let axes = native_ev_codes::axes();
        for i in 0..AXIS_COUNT
            invariant
                axes@ == native_ev_codes::axis_codes(),
                nec != EvCode(native_ev_codes::AXIS_LT2),
                nec != EvCode(native_ev_codes::AXIS_RT2),
                forall|j: int| 0 <= j < i ==> axes@[j] != nec,
        {
            if axes[i] == nec {
                assert(native_ev_codes::axis_codes().contains(nec));
                return Some(&AxisInfo { min: -AXIS_MAX, max: AXIS_MAX, deadzone: None });
            }
        }
        None
    }

    /// Whether the pad was there when it was last looked for.
    pub fn is_connected(&self) -> (yes: bool)
        ensures
            yes == self@.is_connected,
    {
        self.is_connected
    }
}

/// A vendor's name is kept as it is, whatever it is; the stand-in is for pads without one.
pub proof fn law_vendor_name_is_kept(vendor_name: Option<String>)
    ensures
        vendor_name is Some ==> display_name(vendor_name) == vendor_name->0@,
        vendor_name is None ==> display_name(vendor_name) == "Unknown Controller"@,
{
}

/// The four stick axes range from -32767 to 32767, the two triggers from 0 to 32767, none
/// of them has a dead zone, and nothing else is an axis.
pub proof fn law_axis_ranges(nec: EvCode)
    ensures
        ({
            let stick = nec.0 == 0 || nec.0 == 1 || nec.0 == 3 || nec.0 == 4;
            let trigger = nec.0 == 10 || nec.0 == 11;
            &&& axis_range(nec) is Some <==> stick || trigger
            &&& stick || trigger ==> axis_range(nec)->0.max == 32767
                && axis_range(nec)->0.deadzone is None
            &&& stick ==> axis_range(nec)->0.min == -32767
            &&& trigger ==> axis_range(nec)->0.min == 0
        }),
{
    let codes = native_ev_codes::axis_codes();
    assert(codes[0].0 == 0 && codes[1].0 == 1 && codes[2].0 == 3 && codes[3].0 == 4);
}

/// Whether the number lies between -1 and 1.
pub open spec fn bipolar(bits: u32) -> bool {
    !binary32::is_nan(bits) && binary32::magnitude(bits) <= binary32::one()
}

/// Whether the number lies between 0 and 1.
pub open spec fn unipolar(bits: u32) -> bool {
    bipolar(bits) && (binary32::is_negative(bits) ==> binary32::magnitude(bits) == 0)
}

/// Whether the sticks and triggers are in the range that GameController documents.
pub open spec fn in_documented_range(readings: Readings) -> bool {
    &&& bipolar(readings.left_thumbstick_x)
    &&& bipolar(readings.left_thumbstick_y)
    &&& bipolar(readings.right_thumbstick_x)
    &&& bipolar(readings.right_thumbstick_y)
    &&& unipolar(readings.left_trigger)
    &&& unipolar(readings.right_trigger)
}

/// Every axis that is ever reported has a range, which whoever scales the value may
/// rely on.
pub proof fn law_reported_axes_have_a_range(id: usize, was: StateView, now: StateView, k: int)
    requires
        was.is_complete(),
        now.is_complete(),
        0 <= k < changes::changes(id, was, now).len(),
    ensures
        changes::changes(id, was, now)[k].event matches EventType::AxisValueChanged(value, code)
            ==> axis_range(code) is Some,
{
    changes::law_changes_are_true(id, was, now);
    assert(changes::reports(id, now, changes::changes(id, was, now)[k]));
}

/// As long as GameController keeps to its documented range, every reported axis value
/// lies in the range of its axis.
pub proof fn law_reported_values_are_in_range(
    id: usize,
    was: StateView,
    readings: Readings,
    k: int,
)
    requires
        was.is_complete(),
        in_documented_range(readings),
        0 <= k < changes::changes(id, was, readings.state()).len(),
    ensures
        changes::changes(id, was, readings.state())[k].event matches EventType::AxisValueChanged(
            value,
            code,
        ) ==> {
            let range = axis_range(code)->0;
            axis_range(code) is Some && range.min <= value <= range.max
        },
{
    let now = readings.state();
    changes::law_changes_are_true(id, was, now);
    assert(changes::reports(id, now, changes::changes(id, was, now)[k]));
    let values = readings.axis_values();
    assert forall|i: int| 0 <= i < AXIS_COUNT implies ({
        let range = axis_range(#[trigger] native_ev_codes::axis_codes()[i])->0;
        axis_range(native_ev_codes::axis_codes()[i]) is Some && range.min <= now.axes[i]
            <= range.max
    }) by {
        assert(bipolar(values[i]));
        binary32::law_full_scale(values[i]);
        if binary32::magnitude(values[i]) == 0 {
            binary32::law_zero(values[i]);
        }
        assert(native_ev_codes::axis_codes().contains(native_ev_codes::axis_codes()[i]));
    }
}

/// A stick range is symmetric and has an even width, so that its middle is zero.
pub proof fn law_stick_range_is_symmetric(nec: EvCode)
    requires
        axis_range(nec) is Some,
        nec != EvCode(native_ev_codes::AXIS_LT2),
        nec != EvCode(native_ev_codes::AXIS_RT2),
    ensures
        axis_range(nec)->0.min == -axis_range(nec)->0.max,
        (axis_range(nec)->0.max - axis_range(nec)->0.min) % 2 == 0,
{
}

} // verus!

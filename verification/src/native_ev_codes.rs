//! The numbering that every pre-mapped backend uses.
//!
//! A default mapping built from these numbers is already right for the events
//! that this library reports, so no entry of a mapping database is needed.

use crate::ev_code::EvCode;
use vstd::prelude::*;

verus! {

pub const AXIS_LSTICKX: u8 = 0;

pub const AXIS_LSTICKY: u8 = 1;

pub const AXIS_LEFTZ: u8 = 2;

pub const AXIS_RSTICKX: u8 = 3;

pub const AXIS_RSTICKY: u8 = 4;

pub const AXIS_RIGHTZ: u8 = 5;

pub const AXIS_DPADX: u8 = 6;

pub const AXIS_DPADY: u8 = 7;

pub const AXIS_RT: u8 = 8;

pub const AXIS_LT: u8 = 9;

pub const AXIS_RT2: u8 = 10;

pub const AXIS_LT2: u8 = 11;

pub const BTN_SOUTH: u8 = 12;

pub const BTN_EAST: u8 = 13;

pub const BTN_C: u8 = 14;

pub const BTN_NORTH: u8 = 15;

pub const BTN_WEST: u8 = 16;

pub const BTN_Z: u8 = 17;

pub const BTN_LT: u8 = 18;

pub const BTN_RT: u8 = 19;

pub const BTN_LT2: u8 = 20;

pub const BTN_RT2: u8 = 21;

pub const BTN_SELECT: u8 = 22;

pub const BTN_START: u8 = 23;

pub const BTN_MODE: u8 = 24;

pub const BTN_LTHUMB: u8 = 25;

pub const BTN_RTHUMB: u8 = 26;

pub const BTN_DPAD_UP: u8 = 27;

pub const BTN_DPAD_DOWN: u8 = 28;

pub const BTN_DPAD_LEFT: u8 = 29;

pub const BTN_DPAD_RIGHT: u8 = 30;

/// How many buttons a pad has.
pub const BUTTON_COUNT: usize = 15;

/// How many axes a pad has.
pub const AXIS_COUNT: usize = 6;

/// The buttons of a pad. The order is the order of [`crate::state::State::buttons`].
///
/// The D-pad is four buttons and no axis, so that nothing has to turn D-pad axes
/// into buttons. Shoulders are `BTN_LT` and `BTN_RT`, the analog triggers are the
/// axes `AXIS_LT2` and `AXIS_RT2`, and never both: a default mapping gives `BTN_LT`
/// and `AXIS_LT` the same meaning, so listing both would make a reverse lookup
/// ambiguous.
pub open spec fn button_codes() -> Seq<EvCode> {
    seq![
        EvCode(BTN_SOUTH),
        EvCode(BTN_EAST),
        EvCode(BTN_WEST),
        EvCode(BTN_NORTH),
        EvCode(BTN_LT),
        EvCode(BTN_RT),
        EvCode(BTN_SELECT),
        EvCode(BTN_START),
        EvCode(BTN_MODE),
        EvCode(BTN_LTHUMB),
        EvCode(BTN_RTHUMB),
        EvCode(BTN_DPAD_UP),
        EvCode(BTN_DPAD_DOWN),
        EvCode(BTN_DPAD_LEFT),
        EvCode(BTN_DPAD_RIGHT),
    ]
}

/// The axes of a pad. The order is the order of [`crate::state::State::axes`].
pub open spec fn axis_codes() -> Seq<EvCode> {
    seq![
        EvCode(AXIS_LSTICKX),
        EvCode(AXIS_LSTICKY),
        EvCode(AXIS_RSTICKX),
        EvCode(AXIS_RSTICKY),
        EvCode(AXIS_LT2),
        EvCode(AXIS_RT2),
    ]
}

/// The table of [`button_codes`].
pub fn buttons() -> (codes: &'static [EvCode])
    ensures
        codes@ == button_codes(),
        codes@.len() == BUTTON_COUNT,
{
    &[
        EvCode(BTN_SOUTH),
        EvCode(BTN_EAST),
        EvCode(BTN_WEST),
        EvCode(BTN_NORTH),
        EvCode(BTN_LT),
        EvCode(BTN_RT),
        EvCode(BTN_SELECT),
        EvCode(BTN_START),
        EvCode(BTN_MODE),
        EvCode(BTN_LTHUMB),
        EvCode(BTN_RTHUMB),
        EvCode(BTN_DPAD_UP),
        EvCode(BTN_DPAD_DOWN),
        EvCode(BTN_DPAD_LEFT),
        EvCode(BTN_DPAD_RIGHT),
    ]
}

/// The table of [`axis_codes`].
pub fn axes() -> (codes: &'static [EvCode])
    ensures
        codes@ == axis_codes(),
        codes@.len() == AXIS_COUNT,
{
    &[
        EvCode(AXIS_LSTICKX),
        EvCode(AXIS_LSTICKY),
        EvCode(AXIS_RSTICKX),
        EvCode(AXIS_RSTICKY),
        EvCode(AXIS_LT2),
        EvCode(AXIS_RT2),
    ]
}

/// No code is listed twice, be it as a button, as an axis, or as one of each.
pub proof fn law_codes_are_distinct()
    ensures
        button_codes().no_duplicates(),
        axis_codes().no_duplicates(),
        forall|i: int, j: int|
            0 <= i < button_codes().len() && 0 <= j < axis_codes().len()
                ==> button_codes()[i] != axis_codes()[j],
{
}

/// The numbers of the codes, in the order of the tables.
pub proof fn law_numbers()
    ensures
        button_codes().map_values(|code: EvCode| code.0 as int) == seq![
            12int, 13, 16, 15, 18, 19, 22, 23, 24, 25, 26, 27, 28, 29, 30,
        ],
        axis_codes().map_values(|code: EvCode| code.0 as int) == seq![0int, 1, 3, 4, 11, 10],
{
}

/// Every control has one representation. The D-pad is listed as buttons and not as
/// axes; the shoulders as buttons and not as axes; the triggers as axes and not as
/// buttons.
pub proof fn law_one_representation_per_control()
    ensures
        button_codes().contains(EvCode(BTN_DPAD_UP)),
        button_codes().contains(EvCode(BTN_DPAD_DOWN)),
        button_codes().contains(EvCode(BTN_DPAD_LEFT)),
        button_codes().contains(EvCode(BTN_DPAD_RIGHT)),
        !axis_codes().contains(EvCode(AXIS_DPADX)),
        !axis_codes().contains(EvCode(AXIS_DPADY)),
        button_codes().contains(EvCode(BTN_LT)),
        button_codes().contains(EvCode(BTN_RT)),
        !axis_codes().contains(EvCode(AXIS_LT)),
        !axis_codes().contains(EvCode(AXIS_RT)),
        axis_codes().contains(EvCode(AXIS_LT2)),
        axis_codes().contains(EvCode(AXIS_RT2)),
        !button_codes().contains(EvCode(BTN_LT2)),
        !button_codes().contains(EvCode(BTN_RT2)),
{
    assert(button_codes()[4] == EvCode(BTN_LT));
    assert(button_codes()[5] == EvCode(BTN_RT));
    assert(button_codes()[11] == EvCode(BTN_DPAD_UP));
    assert(button_codes()[12] == EvCode(BTN_DPAD_DOWN));
    assert(button_codes()[13] == EvCode(BTN_DPAD_LEFT));
    assert(button_codes()[14] == EvCode(BTN_DPAD_RIGHT));
    assert(axis_codes()[4] == EvCode(AXIS_LT2));
    assert(axis_codes()[5] == EvCode(AXIS_RT2));
}

} // verus!

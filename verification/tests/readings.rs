use gc_gamepad::binary32::{pressed, scaled, AXIS_MAX};
use gc_gamepad::state::{Readings, State};

fn float_scaled(v: f32) -> i32 {
    (v * AXIS_MAX as f32) as i32
}

fn agrees(bits: u32) {
    let v = f32::from_bits(bits);
    assert_eq!(scaled(bits), float_scaled(v), "scaled({:#010x})", bits);
    assert_eq!(pressed(bits), v > 0.5, "pressed({:#010x})", bits);
}

fn at_rest() -> Readings {
    Readings {
        button_a: 0,
        button_b: 0,
        button_x: 0,
        button_y: 0,
        left_shoulder: 0,
        right_shoulder: 0,
        button_options: None,
        button_menu: 0,
        button_home: None,
        left_thumbstick_button: None,
        right_thumbstick_button: None,
        dpad_up: 0,
        dpad_down: 0,
        dpad_left: 0,
        dpad_right: 0,
        left_thumbstick_x: 0,
        left_thumbstick_y: 0,
        right_thumbstick_x: 0,
        right_thumbstick_y: 0,
        left_trigger: 0,
        right_trigger: 0,
    }
}

#[test]
fn full_scale_and_rest() {
    assert_eq!(scaled(1.0f32.to_bits()), 32767);
    assert_eq!(scaled((-1.0f32).to_bits()), -32767);
    assert_eq!(scaled(0.0f32.to_bits()), 0);
    assert_eq!(scaled((-0.0f32).to_bits()), 0);
    assert_eq!(scaled(0.5f32.to_bits()), 16383);
    assert_eq!(scaled((-0.5f32).to_bits()), -16383);
}

#[test]
fn fraction_is_dropped_toward_zero() {
    assert_eq!(scaled((1.9f32 / 32767.0).to_bits()), 1);
    assert_eq!(scaled((-1.9f32 / 32767.0).to_bits()), -1);
}

#[test]
fn out_of_range_saturates() {
    assert_eq!(scaled(f32::INFINITY.to_bits()), i32::MAX);
    assert_eq!(scaled(f32::NEG_INFINITY.to_bits()), i32::MIN);
    assert_eq!(scaled(f32::MAX.to_bits()), i32::MAX);
    assert_eq!(scaled(f32::MIN.to_bits()), i32::MIN);
    assert_eq!(scaled(65538.0f32.to_bits()), float_scaled(65538.0));
    assert_eq!(scaled((-65538.0f32).to_bits()), float_scaled(-65538.0));
}

#[test]
fn not_a_number_is_zero_and_released() {
    assert_eq!(scaled(f32::NAN.to_bits()), 0);
    assert_eq!(scaled(0xFFFF_FFFF), 0);
    assert!(!pressed(f32::NAN.to_bits()));
    assert!(!pressed(0x7F80_0001));
}

#[test]
fn above_half_scale_is_pressed() {
    assert!(!pressed(0.5f32.to_bits()));
    assert!(pressed(0.500_000_06f32.to_bits()));
    assert!(!pressed(0.499_999_97f32.to_bits()));
    assert!(pressed(1.0f32.to_bits()));
    assert!(pressed(f32::INFINITY.to_bits()));
    assert!(!pressed(0.0f32.to_bits()));
    assert!(!pressed((-1.0f32).to_bits()));
}

#[test]
fn every_exponent_agrees_with_float_arithmetic() {
    for sign in 0..2u32 {
        for exponent in 0..256u32 {
            for fraction in [0, 1, 2, 3, 0x200, 0x7FFF, 0x8000, 0x8001, 0x40_0000, 0x55_5555, 0x7F_FFFE, 0x7F_FFFF] {
                agrees((sign << 31) | (exponent << 23) | fraction);
            }
        }
    }
}

#[test]
fn scattered_patterns_agree_with_float_arithmetic() {
    let mut x: u32 = 0x1234_5678;
    for _ in 0..2_000_000 {
        x ^= x << 13;
        x ^= x >> 17;
        x ^= x << 5;
        agrees(x);
        // The same fraction, between -1 and 1.
        agrees((x & 0x807F_FFFF) | ((112 + x % 16) << 23));
    }
}

#[test]
fn law_unit_range_stays_in_full_scale() {
    let mut bits: u32 = 0;
    while bits <= 1.0f32.to_bits() {
        let value = scaled(bits);
        assert!(0 <= value && value <= AXIS_MAX);
        assert_eq!(scaled(bits | 0x8000_0000), -value);
        bits += 1009;
    }
}

#[test]
fn missing_buttons_are_released() {
    let state = State::read(&at_rest());
    assert_eq!(state, State::default());
    assert_eq!(state.buttons, [false; 15]);
    assert_eq!(state.axes, [0; 6]);
}

#[test]
fn each_control_has_its_place() {
    let one = 1.0f32.to_bits();
    let r = at_rest();
    let cases: [(Readings, usize); 15] = [
        (Readings { button_a: one, ..r }, 0),
        (Readings { button_b: one, ..r }, 1),
        (Readings { button_x: one, ..r }, 2),
        (Readings { button_y: one, ..r }, 3),
        (Readings { left_shoulder: one, ..r }, 4),
        (Readings { right_shoulder: one, ..r }, 5),
        (Readings { button_options: Some(one), ..r }, 6),
        (Readings { button_menu: one, ..r }, 7),
        (Readings { button_home: Some(one), ..r }, 8),
        (Readings { left_thumbstick_button: Some(one), ..r }, 9),
        (Readings { right_thumbstick_button: Some(one), ..r }, 10),
        (Readings { dpad_up: one, ..r }, 11),
        (Readings { dpad_down: one, ..r }, 12),
        (Readings { dpad_left: one, ..r }, 13),
        (Readings { dpad_right: one, ..r }, 14),
    ];
    for (readings, place) in cases.iter() {
        let mut buttons = [false; 15];
        buttons[*place] = true;
        let state = State::read(readings);
        assert_eq!(state.buttons, buttons);
        assert_eq!(state.axes, [0; 6]);
    }
    let cases: [(Readings, usize); 6] = [
        (Readings { left_thumbstick_x: one, ..r }, 0),
        (Readings { left_thumbstick_y: one, ..r }, 1),
        (Readings { right_thumbstick_x: one, ..r }, 2),
        (Readings { right_thumbstick_y: one, ..r }, 3),
        (Readings { left_trigger: one, ..r }, 4),
        (Readings { right_trigger: one, ..r }, 5),
    ];
    for (readings, place) in cases.iter() {
        let mut axes = [0; 6];
        axes[*place] = 32767;
        let state = State::read(readings);
        assert_eq!(state.buttons, [false; 15]);
        assert_eq!(state.axes, axes);
    }
}

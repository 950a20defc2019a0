use gc_gamepad::state::Readings;
use gc_gamepad::{native_ev_codes, AxisInfo, EvCode, FfDevice, Gamepad, PowerInfo};

fn pad(vendor_name: Option<&str>) -> Gamepad {
    let readings = Readings {
        button_a: 0,
        button_b: 0,
        button_x: 0,
        button_y: 0,
        left_shoulder: 0,
        right_shoulder: 0,
        button_options: None,
        button_menu: 0,
        button_home: None,
        left_thumbstick_button: None,
        right_thumbstick_button: None,
        dpad_up: 0,
        dpad_down: 0,
        dpad_left: 0,
        dpad_right: 0,
        left_thumbstick_x: 0,
        left_thumbstick_y: 0,
        right_thumbstick_x: 0,
        right_thumbstick_y: 0,
        left_trigger: 0,
        right_trigger: 0,
    };
    Gamepad::new(0x1000, vendor_name.map(|s| s.to_string()), &readings)
}

#[test]
fn code_as_number_and_text() {
    for code in 0..=255u8 {
        assert_eq!(EvCode(code).into_u32(), code as u32);
        assert_eq!(EvCode(code).to_decimal(), format!("{}", code));
    }
}

#[test]
fn law_texts_differ_where_codes_do() {
    for a in 0..=255u8 {
        for b in 0..=255u8 {
            assert_eq!(EvCode(a).to_decimal() == EvCode(b).to_decimal(), a == b);
        }
    }
}

#[test]
fn tables_hold_these_codes() {
    let p = pad(None);
    let buttons: Vec<u32> = p.buttons().iter().map(|c| c.into_u32()).collect();
    assert_eq!(buttons, vec![12, 13, 16, 15, 18, 19, 22, 23, 24, 25, 26, 27, 28, 29, 30]);
    let axes: Vec<u32> = p.axes().iter().map(|c| c.into_u32()).collect();
    assert_eq!(axes, vec![0, 1, 3, 4, 11, 10]);
}

#[test]
fn law_no_code_is_listed_twice() {
    let p = pad(None);
    let mut all: Vec<EvCode> = p.buttons().to_vec();
    all.extend_from_slice(p.axes());
    for i in 0..all.len() {
        for j in 0..i {
            assert_ne!(all[i], all[j]);
        }
    }
    assert!(!all.contains(&EvCode(native_ev_codes::AXIS_DPADX)));
    assert!(!all.contains(&EvCode(native_ev_codes::AXIS_DPADY)));
    assert!(!all.contains(&EvCode(native_ev_codes::AXIS_LT)));
    assert!(!all.contains(&EvCode(native_ev_codes::AXIS_RT)));
    assert!(!all.contains(&EvCode(native_ev_codes::BTN_LT2)));
    assert!(!all.contains(&EvCode(native_ev_codes::BTN_RT2)));
}

#[test]
fn axis_ranges() {
    let p = pad(None);
    let stick = AxisInfo { min: -32767, max: 32767, deadzone: None };
    let trigger = AxisInfo { min: 0, max: 32767, deadzone: None };
    for code in 0..=255u8 {
        let expected = match code {
            0 | 1 | 3 | 4 => Some(&stick),
            10 | 11 => Some(&trigger),
            _ => None,
        };
        assert_eq!(p.axis_info(EvCode(code)), expected);
    }
    assert_eq!((stick.max - stick.min) % 2, 0);
}

#[test]
fn uuid_is_nil() {
    assert_eq!(uuid::Uuid::from_u128(pad(None).uuid()), uuid::Uuid::nil());
    assert!(uuid::Uuid::from_u128(pad(None).uuid()).is_nil());
}

#[test]
fn names() {
    assert_eq!(pad(Some("Stadia Pad")).name(), "Stadia Pad");
    assert_eq!(pad(Some("")).name(), "");
    assert_eq!(pad(None).name(), "Unknown Controller");
}

#[test]
fn plain_answers() {
    let p = pad(None);
    assert_eq!(p.vendor_id(), None);
    assert_eq!(p.product_id(), None);
    assert!(!p.is_ff_supported());
    assert_eq!(p.ff_device(), Some(FfDevice));
    assert!(p.is_connected());
    assert!(p.is(0x1000));
    assert!(!p.is(0x1001));
    assert!(!gc_gamepad::IS_Y_AXIS_REVERSED);
}

#[test]
fn attached_pad_is_wired() {
    assert_eq!(pad(None).power_info(true), PowerInfo::Wired);
    assert_eq!(pad(None).power_info(false), PowerInfo::Unknown);
}

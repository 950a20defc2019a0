use gc_gamepad::gilrs::{NextEvent, PollReply, PollRequest, Profile, Sighting};
use gc_gamepad::state::Readings;
use gc_gamepad::{native_ev_codes, EvCode, Event, EventType, Gamepad, Gilrs};

fn at_rest() -> Readings {
    Readings {
        button_a: 0,
        button_b: 0,
        button_x: 0,
        button_y: 0,
        left_shoulder: 0,
        right_shoulder: 0,
        button_options: Some(0),
        button_menu: 0,
        button_home: None,
        left_thumbstick_button: Some(0),
        right_thumbstick_button: Some(0),
        dpad_up: 0,
        dpad_down: 0,
        dpad_left: 0,
        dpad_right: 0,
        left_thumbstick_x: 0,
        left_thumbstick_y: 0,
        right_thumbstick_x: 0,
        right_thumbstick_y: 0,
        left_trigger: 0,
        right_trigger: 0,
    }
}

fn bits(v: f32) -> u32 {
    v.to_bits()
}

/// The value that reads as so many counts.
fn counts(n: i32) -> u32 {
    let sign = if n < 0 { -1.0 } else { 1.0 };
    bits(sign * (n.abs() as f32 + 0.5) / 32767.0)
}

fn seen(controller: usize) -> Sighting {
    Sighting { controller, profile: Some(Profile { vendor_name: None, readings: at_rest() }) }
}

fn no_gamepad(controller: usize) -> Sighting {
    Sighting { controller, profile: None }
}

fn connected(id: usize) -> Event {
    Event { id, event: EventType::Connected }
}

fn disconnected(id: usize) -> Event {
    Event { id, event: EventType::Disconnected }
}

fn pressed(id: usize, code: u8) -> Event {
    Event { id, event: EventType::ButtonPressed(EvCode(code)) }
}

fn released(id: usize, code: u8) -> Event {
    Event { id, event: EventType::ButtonReleased(EvCode(code)) }
}

fn moved(id: usize, value: i32, code: u8) -> Event {
    Event { id, event: EventType::AxisValueChanged(value, EvCode(code)) }
}

/// Everything that waits.
fn drain(g: &mut Gilrs) -> Vec<Event> {
    let mut events = Vec::new();
    while let NextEvent::Deliver(event) = g.next_event(true) {
        events.push(event);
    }
    events
}

#[test]
fn nothing_at_first() {
    let mut g = Gilrs::new();
    assert_eq!(g.last_gamepad_hint(), 0);
    assert!(g.gamepad(0).is_none());
    assert_eq!(g.next_event(false), NextEvent::Poll);
    assert_eq!(g.next_event(true), NextEvent::Nothing);
}

#[test]
fn diff_reports_buttons_then_axes() {
    let mut pad = Gamepad::new(1, None, &Readings { button_b: bits(1.0), ..at_rest() });
    let mut out = vec![connected(9)];
    let now = Readings {
        button_a: bits(0.75),
        button_x: bits(0.5),
        dpad_right: bits(1.0),
        left_thumbstick_y: bits(-1.0),
        right_trigger: bits(0.25),
        left_trigger: bits(1.0),
        ..at_rest()
    };
    pad.diff(3, &now, &mut out);
    assert_eq!(
        out,
        vec![
            connected(9),
            pressed(3, native_ev_codes::BTN_SOUTH),
            released(3, native_ev_codes::BTN_EAST),
            pressed(3, native_ev_codes::BTN_DPAD_RIGHT),
            moved(3, -32767, native_ev_codes::AXIS_LSTICKY),
            moved(3, 32767, native_ev_codes::AXIS_LT2),
            moved(3, 8191, native_ev_codes::AXIS_RT2),
        ]
    );
    out.clear();
    pad.diff(3, &now, &mut out);
    assert_eq!(out, vec![]);
}

#[test]
fn law_one_count_of_jitter_is_silent() {
    let mut pad = Gamepad::new(1, None, &at_rest());
    let mut out = Vec::new();
    for n in [1, 0, -1, 0, 1, 2, 3, 2] {
        pad.diff(0, &Readings { left_thumbstick_x: counts(n), ..at_rest() }, &mut out);
        assert_eq!(out, vec![]);
    }
    pad.diff(0, &Readings { left_thumbstick_x: counts(4), ..at_rest() }, &mut out);
    assert_eq!(out, vec![moved(0, 4, native_ev_codes::AXIS_LSTICKX)]);
}

#[test]
fn travel_over_the_whole_range_is_reported() {
    let mut pad = Gamepad::new(1, None, &Readings { left_thumbstick_x: bits(f32::MAX), ..at_rest() });
    let mut out = Vec::new();
    pad.diff(0, &Readings { left_thumbstick_x: bits(f32::MIN), ..at_rest() }, &mut out);
    assert_eq!(out, vec![moved(0, i32::MIN, native_ev_codes::AXIS_LSTICKX)]);
}

#[test]
fn law_changes_lead_to_the_new_state() {
    let values = [0.0f32, 0.4, 0.5, 0.6, 1.0, -1.0, 0.000_02];
    for was in values.iter() {
        for now in values.iter() {
            let first = Readings { button_y: bits(*was), left_thumbstick_x: bits(*was), ..at_rest() };
            let second = Readings { button_y: bits(*now), left_thumbstick_x: bits(*now), ..at_rest() };
            let mut pad = Gamepad::new(1, None, &first);
            let mut out = Vec::new();
            pad.diff(0, &second, &mut out);
            let mut button = *was > 0.5;
            let mut axis = (*was * 32767.0) as i32;
            for event in out.iter() {
                match event.event {
                    EventType::ButtonPressed(_) => button = true,
                    EventType::ButtonReleased(_) => button = false,
                    EventType::AxisValueChanged(value, _) => axis = value,
                    _ => panic!("{:?}", event),
                }
            }
            assert_eq!(button, *now > 0.5);
            assert!((axis - (*now * 32767.0) as i32).abs() <= 1);
        }
    }
}

#[test]
fn controllers_get_slots_in_order() {
    let mut g = Gilrs::new();
    let new = g.reconcile(&vec![no_gamepad(5), seen(10), seen(11), seen(10)]);
    assert_eq!(new, vec![1, 2]);
    assert_eq!(g.last_gamepad_hint(), 2);
    assert!(g.gamepad(0).unwrap().is(10));
    assert!(g.gamepad(1).unwrap().is(11));
    assert_eq!(g.connected(), vec![0, 1]);
    assert_eq!(drain(&mut g), vec![connected(0), connected(1)]);
}

#[test]
fn law_slots_survive_disconnection() {
    let mut g = Gilrs::new();
    g.reconcile(&vec![seen(10), seen(11), seen(12)]);
    drain(&mut g);
    let new = g.reconcile(&vec![seen(13), seen(11)]);
    assert_eq!(new, vec![0]);
    assert_eq!(drain(&mut g), vec![connected(3), disconnected(0), disconnected(2)]);
    assert_eq!(g.connected(), vec![1, 3]);
    assert!(!g.gamepad(0).unwrap().is_connected());
    assert!(g.gamepad(0).unwrap().is(10));
    let new = g.reconcile(&vec![seen(12), seen(14), seen(10)]);
    assert_eq!(new, vec![1]);
    assert_eq!(
        drain(&mut g),
        vec![connected(2), connected(4), connected(0), disconnected(1), disconnected(3)]
    );
    assert_eq!(g.last_gamepad_hint(), 5);
}

#[test]
fn losing_the_profile_is_losing_the_pad() {
    let mut g = Gilrs::new();
    g.reconcile(&vec![seen(10)]);
    drain(&mut g);
    g.reconcile(&vec![no_gamepad(10)]);
    assert_eq!(drain(&mut g), vec![disconnected(0)]);
}

#[test]
fn law_same_list_twice_is_silent() {
    let mut g = Gilrs::new();
    let list = vec![seen(10), no_gamepad(11), seen(12)];
    g.reconcile(&list);
    drain(&mut g);
    let new = g.reconcile(&list);
    assert_eq!(new, vec![]);
    assert_eq!(drain(&mut g), vec![]);
}

#[test]
fn sampling_reads_connected_pads_only() {
    let mut g = Gilrs::new();
    g.reconcile(&vec![seen(10), seen(11), seen(12)]);
    g.reconcile(&vec![seen(10), seen(12)]);
    drain(&mut g);
    assert_eq!(g.connected(), vec![0, 2]);
    g.sample(&vec![
        Readings { button_menu: bits(1.0), ..at_rest() },
        Readings { button_options: Some(bits(1.0)), ..at_rest() },
    ]);
    assert_eq!(
        drain(&mut g),
        vec![pressed(0, native_ev_codes::BTN_START), pressed(2, native_ev_codes::BTN_SELECT)]
    );
}

#[test]
fn law_untouched_pads_stay_silent() {
    let mut g = Gilrs::new();
    let list = vec![seen(10), seen(11)];
    g.reconcile(&list);
    drain(&mut g);
    for n in [0, 1, 0, -1, 0] {
        g.reconcile(&list);
        g.sample(&vec![at_rest(), Readings { right_thumbstick_x: counts(n), ..at_rest() }]);
        assert_eq!(g.next_event(true), NextEvent::Nothing);
    }
}

#[test]
fn law_held_button_does_not_arrive_as_a_press() {
    let held = Readings { button_a: bits(1.0), ..at_rest() };
    let list = vec![Sighting {
        controller: 10,
        profile: Some(Profile { vendor_name: Some("Pad".to_string()), readings: held }),
    }];
    let mut g = Gilrs::new();
    g.reconcile(&list);
    g.sample(&vec![held]);
    assert_eq!(drain(&mut g), vec![connected(0)]);
    assert_eq!(g.gamepad(0).unwrap().name(), "Pad");
    g.sample(&vec![at_rest()]);
    assert_eq!(drain(&mut g), vec![released(0, native_ev_codes::BTN_SOUTH)]);
}

#[test]
fn returning_pad_reports_against_its_last_state() {
    let mut g = Gilrs::new();
    g.reconcile(&vec![seen(10)]);
    g.reconcile(&vec![]);
    g.reconcile(&vec![Sighting {
        controller: 10,
        profile: Some(Profile { vendor_name: None, readings: Readings { button_x: bits(1.0), ..at_rest() } }),
    }]);
    g.sample(&vec![Readings { button_x: bits(1.0), ..at_rest() }]);
    assert_eq!(
        drain(&mut g),
        vec![connected(0), disconnected(0), connected(0), pressed(0, native_ev_codes::BTN_WEST)]
    );
}

#[test]
fn law_events_come_out_in_order() {
    let mut g = Gilrs::new();
    g.reconcile(&vec![seen(10)]);
    g.sample(&vec![Readings { button_a: bits(1.0), ..at_rest() }]);
    g.sample(&vec![at_rest()]);
    assert_eq!(g.next_event(false), NextEvent::Deliver(connected(0)));
    assert_eq!(g.next_event(false), NextEvent::Deliver(pressed(0, native_ev_codes::BTN_SOUTH)));
    assert_eq!(g.next_event(false), NextEvent::Deliver(released(0, native_ev_codes::BTN_SOUTH)));
    assert_eq!(g.next_event(false), NextEvent::Poll);
    assert_eq!(g.next_event(true), NextEvent::Nothing);
}

#[test]
fn law_background_events_go_on_once() {
    let mut g = Gilrs::new();
    assert!(!g.monitor_background_events(0));
    assert!(g.monitor_background_events(2));
    assert!(!g.monitor_background_events(2));
    assert!(!g.monitor_background_events(0));
    assert!(!g.monitor_background_events(1));
}

#[test]
fn law_listener_can_follow_connections() {
    let mut g = Gilrs::new();
    let mut known: usize = 0;
    let mut on: Vec<usize> = Vec::new();
    let lists: [&[usize]; 7] = [&[], &[3, 1], &[1, 4, 3], &[4], &[5, 1, 4], &[], &[3, 6, 5, 3]];
    for list in lists.iter() {
        g.reconcile(&list.iter().map(|c| seen(*c)).collect());
        let readings = g.connected().iter().map(|_| Readings { button_y: bits(1.0), ..at_rest() }).collect();
        g.sample(&readings);
        for event in drain(&mut g) {
            match event.event {
                EventType::Connected => {
                    assert!(event.id <= known);
                    assert!(!on.contains(&event.id));
                    if event.id == known {
                        known += 1;
                    }
                    on.push(event.id);
                }
                EventType::Disconnected => {
                    assert!(on.contains(&event.id));
                    on.retain(|id| *id != event.id);
                }
                _ => assert!(on.contains(&event.id)),
            }
        }
        on.sort();
        assert_eq!(known, g.last_gamepad_hint());
        assert_eq!(on, g.connected());
    }
}

#[test]
fn poll_asks_for_one_thing_after_another() {
    let mut g = Gilrs::new();
    assert!(matches!(g.poll(PollReply::Start), PollRequest::Turn { turns: 0 }));
    assert!(matches!(g.poll(PollReply::Turned { turns: 0, serviced: true }), PollRequest::Turn { turns: 1 }));
    assert!(matches!(g.poll(PollReply::Turned { turns: 1, serviced: false }), PollRequest::List));
    assert!(matches!(g.poll(PollReply::Turned { turns: 62, serviced: true }), PollRequest::Turn { turns: 63 }));
    assert!(matches!(g.poll(PollReply::Turned { turns: 63, serviced: true }), PollRequest::List));
    assert!(matches!(g.poll(PollReply::Turned { turns: u32::MAX, serviced: true }), PollRequest::List));
    assert!(matches!(g.poll(PollReply::Listed(0)), PollRequest::Describe));
    assert!(matches!(g.poll(PollReply::Listed(1)), PollRequest::SwitchOnBackgroundEvents));
    assert!(matches!(g.poll(PollReply::SwitchedOn), PollRequest::Describe));
    assert!(matches!(g.poll(PollReply::Listed(1)), PollRequest::Describe));
    match g.poll(PollReply::Described(vec![no_gamepad(1), seen(2)])) {
        PollRequest::Read { new, ids } => {
            assert_eq!(new, vec![1]);
            assert_eq!(ids, vec![0]);
        }
        other => panic!("{:?}", other),
    }
    let live = Readings { left_shoulder: bits(1.0), ..at_rest() };
    assert!(matches!(g.poll(PollReply::Read(vec![live])), PollRequest::Done));
    assert_eq!(drain(&mut g), vec![connected(0), pressed(0, native_ev_codes::BTN_LT)]);
}

#[test]
fn law_poll_ends_when_the_run_loop_never_rests() {
    let mut g = Gilrs::new();
    let mut taken: u32 = 0;
    let mut reply = PollReply::Start;
    loop {
        reply = match g.poll(reply) {
            PollRequest::Turn { turns } => {
                assert_eq!(turns, taken);
                taken += 1;
                PollReply::Turned { turns, serviced: true }
            }
            PollRequest::List => PollReply::Listed(1),
            PollRequest::SwitchOnBackgroundEvents => PollReply::SwitchedOn,
            PollRequest::Describe => PollReply::Described(vec![seen(1)]),
            PollRequest::Read { new: _, ids } => {
                PollReply::Read(ids.iter().map(|_| at_rest()).collect())
            }
            PollRequest::Done => break,
        };
    }
    assert_eq!(taken, 64);
    assert_eq!(drain(&mut g), vec![connected(0)]);
}

#[test]
fn button_at_exactly_half_is_released() {
    let mut pad = Gamepad::new(1, None, &Readings { button_a: bits(0.5), ..at_rest() });
    let mut out = Vec::new();
    pad.diff(0, &at_rest(), &mut out);
    assert_eq!(out, vec![]);
    pad.diff(0, &Readings { button_a: bits(0.5), ..at_rest() }, &mut out);
    assert_eq!(out, vec![]);
    pad.diff(0, &Readings { button_a: bits(0.500_000_06), ..at_rest() }, &mut out);
    assert_eq!(out, vec![pressed(0, native_ev_codes::BTN_SOUTH)]);
}

#[test]
fn waiting_events_can_be_looked_at() {
    let mut g = Gilrs::new();
    assert!(g.waiting().is_empty());
    assert!(!g.background_events_set());
    g.monitor_background_events(1);
    g.reconcile(&vec![seen(10), seen(11)]);
    assert!(g.background_events_set());
    let waiting: Vec<Event> = g.waiting().iter().copied().collect();
    assert_eq!(waiting, vec![connected(0), connected(1)]);
    assert_eq!(drain(&mut g), waiting);
}

#[test]
fn law_same_poll_twice_reports_once() {
    let mut g = Gilrs::new();
    let list = vec![seen(10), no_gamepad(11), seen(12)];
    let live = vec![
        Readings { button_a: bits(1.0), ..at_rest() },
        Readings { left_trigger: bits(1.0), ..at_rest() },
    ];
    g.reconcile(&list);
    g.sample(&live);
    assert_eq!(
        drain(&mut g),
        vec![
            connected(0),
            connected(1),
            pressed(0, native_ev_codes::BTN_SOUTH),
            moved(1, 32767, native_ev_codes::AXIS_LT2),
        ]
    );
    g.reconcile(&list);
    g.sample(&live);
    assert_eq!(drain(&mut g), vec![]);
}

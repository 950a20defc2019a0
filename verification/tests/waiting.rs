use gc_gamepad::pump::{boot_step, drain_again, wait_step, BootStep, WaitStep};
use gc_gamepad::{Event, EventType};

#[test]
fn drain_stops_at_an_idle_turn() {
    assert!(drain_again(1, true));
    assert!(!drain_again(1, false));
    assert!(drain_again(63, true));
    assert!(!drain_again(64, true));
}

#[test]
fn law_drain_takes_at_most_64_turns() {
    let mut turns: u32 = 0;
    loop {
        turns += 1;
        if !drain_again(turns, true) {
            break;
        }
    }
    assert_eq!(turns, 64);
}

#[test]
fn boot_waits_for_a_controller() {
    assert_eq!(boot_step(0, 0), BootStep::Pump { millis: 2 });
    assert_eq!(boot_step(0, 49_999_999), BootStep::Pump { millis: 2 });
    assert_eq!(boot_step(0, 50_000_000), BootStep::Poll);
    assert_eq!(boot_step(1, 0), BootStep::Poll);
}

#[test]
fn wait_ends_with_an_event_or_in_time() {
    let event = Event::new(2, EventType::Connected);
    assert_eq!(wait_step(Some(event), 0, None), WaitStep::Return(Some(event)));
    assert_eq!(wait_step(Some(event), 9, Some(5)), WaitStep::Return(Some(event)));
    assert_eq!(wait_step(None, 5, Some(5)), WaitStep::Return(None));
    assert_eq!(wait_step(None, 0, Some(0)), WaitStep::Return(None));
    assert_eq!(wait_step(None, 4, Some(5)), WaitStep::Pump { millis: 4 });
    assert_eq!(wait_step(None, u128::MAX, None), WaitStep::Pump { millis: 4 });
}

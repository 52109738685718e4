use bevy_sequence::combinators::delay::{schedules_after, AfterSystem};
use bevy_sequence::fragment::event::EndStage;
use std::time::Duration;

fn ms(n: u64) -> u128 {
    Duration::from_millis(n).as_nanos()
}

#[test]
fn fires_once_the_delay_has_passed() {
    let mut after = AfterSystem::new(7u32, ms(10));
    assert_eq!(after.system(), 7);
    assert!(!after.advance(ms(4)));
    assert!(!after.advance(ms(4)));
    assert!(after.advance(ms(4)));
}

#[test]
fn fires_exactly_when_the_sum_reaches_the_delay() {
    let mut after = AfterSystem::new(1u8, ms(10));
    assert!(!after.advance(ms(6)));
    assert!(after.advance(ms(4)));
    assert!(after.advance(ms(1)));
}

#[test]
fn a_zero_delay_fires_on_the_first_tick() {
    let mut after = AfterSystem::new(1u8, 0);
    assert!(after.advance(0));
}

#[test]
fn paused_waits_do_not_fire() {
    let mut after = AfterSystem::new(1u8, ms(10));
    after.pause();
    assert!(!after.advance(ms(50)));
    after.unpause();
    assert!(!after.advance(ms(5)));
    assert!(after.advance(ms(5)));
}

#[test]
fn huge_spans_do_not_overflow() {
    let mut after = AfterSystem::new(1u8, u128::MAX);
    assert!(!after.advance(u128::MAX - 1));
    assert!(after.advance(u128::MAX));
}

#[test]
fn only_ends_schedule_delays() {
    assert!(schedules_after(EndStage::End));
    assert!(!schedules_after(EndStage::Interrupt));
    assert!(!schedules_after(EndStage::Visit));
}

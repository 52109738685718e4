use bevy_sequence::schedule::AddedSystems;
use std::any::TypeId;

#[test]
fn systems_are_added_once_per_schedule() {
    let mut added = AddedSystems::default();
    let set = TypeId::of::<(u8, u16)>();
    let other = TypeId::of::<(u16, u8)>();
    assert!(added.first_time(set, 1));
    assert!(added.first_time(other, 1));
    assert!(!added.first_time(set, 1));
    assert!(!added.first_time(other, 1));
    assert!(added.first_time(set, 2));
    assert!(!added.first_time(set, 2));
}

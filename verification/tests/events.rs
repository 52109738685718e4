use bevy_ecs::entity::Entity;
use bevy_sequence::fragment::event::{
    next_hop, start_event, ActiveEvents, BeginStage, EndStage, EventId, FragmentEvent, IdPair,
};
use bevy_sequence::fragment::FragmentId;

fn entity(n: u32) -> Entity {
    Entity::from_raw_u32(n).unwrap()
}

fn distinct_ids(n: usize) -> Vec<EventId> {
    let mut ids: Vec<EventId> = Vec::new();
    while ids.len() < n {
        let id = EventId::new();
        if !ids.contains(&id) {
            ids.push(id);
        }
    }
    ids
}

#[test]
fn event_ids_are_drawn_fresh() {
    let a = EventId::new();
    let b = EventId::new();
    let c = EventId::default();
    assert!(a != b || b != c);
}

#[test]
fn insert_appends() {
    let ids = distinct_ids(2);
    let mut events = ActiveEvents::default();
    events.insert(ids[0]);
    events.insert(ids[1]);
    events.insert(ids[0]);
    assert_eq!(events.as_slice(), &[ids[0], ids[1], ids[0]]);
    assert_eq!(&*events, &[ids[0], ids[1], ids[0]]);
}

#[test]
fn remove_takes_first_occurrence_and_moves_last_into_place() {
    let ids = distinct_ids(3);
    let mut events = ActiveEvents::new(vec![ids[0], ids[1], ids[2], ids[1]]);
    assert!(events.remove(ids[1]));
    assert_eq!(events.as_slice(), &[ids[0], ids[1], ids[2]]);
    assert!(events.remove(ids[0]));
    assert_eq!(events.as_slice(), &[ids[2], ids[1]]);
}

#[test]
fn remove_of_absent_id_changes_nothing() {
    let ids = distinct_ids(3);
    let mut events = ActiveEvents::new(vec![ids[0], ids[1]]);
    assert!(!events.remove(ids[2]));
    assert_eq!(events.as_slice(), &[ids[0], ids[1]]);
    let mut empty = ActiveEvents::default();
    assert!(!empty.remove(ids[0]));
    assert!(empty.as_slice().is_empty());
}

#[test]
fn insert_then_remove_restores() {
    let ids = distinct_ids(3);
    let mut events = ActiveEvents::new(vec![ids[0], ids[1]]);
    events.insert(ids[2]);
    assert!(events.remove(ids[2]));
    assert_eq!(events.as_slice(), &[ids[0], ids[1]]);
}

#[test]
fn end_and_interrupt_carry_the_event() {
    let ids = distinct_ids(1);
    let pair = IdPair { fragment: FragmentId::new(entity(3)), event: ids[0] };
    let event = FragmentEvent { id: pair, data: "hello" };
    let end = event.end();
    assert_eq!(end.target(), pair.fragment);
    let stage = end.stage_event();
    assert_eq!(stage.id, pair);
    assert_eq!(stage.stage, EndStage::End);
    let interrupt = event.interrupt();
    let stage = interrupt.stage_event();
    assert_eq!(stage.id, pair);
    assert_eq!(stage.stage, EndStage::Interrupt);
}

#[test]
fn start_event_targets_the_fragment() {
    let e = start_event(entity(5));
    assert_eq!(e.stage, BeginStage::Start);
    assert_eq!(e.id.fragment, FragmentId::new(entity(5)));
    assert_eq!(e.id.fragment.entity(), entity(5));
}

#[test]
fn events_stop_at_roots() {
    assert_eq!(next_hop(false, Some(entity(1))), Some(entity(1)));
    assert_eq!(next_hop(true, Some(entity(1))), None);
    assert_eq!(next_hop(false, None), None);
    assert_eq!(next_hop(true, None), None);
}

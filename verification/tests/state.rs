use bevy_ecs::entity::Entity;
use bevy_sequence::fragment::event::{
    ActiveEvents, BeginStage, EndStage, EventId, IdPair, StageEvent,
};
use bevy_sequence::fragment::leaf::{leaf_event, DataLeaf};
use bevy_sequence::fragment::{FragmentId, FragmentState};

fn begin(stage: BeginStage, id: EventId) -> StageEvent<BeginStage> {
    StageEvent {
        id: IdPair { fragment: FragmentId::new(Entity::from_raw_u32(2).unwrap()), event: id },
        stage,
    }
}

fn two_ids() -> (EventId, EventId) {
    let a = EventId::new();
    let mut b = EventId::new();
    while b == a {
        b = EventId::new();
    }
    (a, b)
}

#[test]
fn default_state_is_idle() {
    let s = FragmentState::default();
    assert_eq!(s.triggered, 0);
    assert_eq!(s.completed, 0);
    assert!(!s.active);
    assert!(s.active_events.as_slice().is_empty());
}

#[test]
fn start_counts_a_trigger_and_activates() {
    let (a, _) = two_ids();
    let mut s = FragmentState::default();
    s.begin(&begin(BeginStage::Start, a));
    assert_eq!(s.triggered, 1);
    assert!(s.active);
    assert_eq!(s.active_events.as_slice(), &[a]);
}

#[test]
fn visit_only_records_the_event() {
    let (a, _) = two_ids();
    let mut s = FragmentState::default();
    s.begin(&begin(BeginStage::Visit, a));
    assert_eq!(s.triggered, 0);
    assert!(!s.active);
    assert_eq!(s.active_events.as_slice(), &[a]);
}

#[test]
fn start_then_end_completes() {
    let (a, b) = two_ids();
    let mut s = FragmentState {
        triggered: 4,
        completed: 2,
        active: false,
        active_events: ActiveEvents::new(vec![b]),
    };
    s.begin(&begin(BeginStage::Start, a));
    assert!(s.release(a));
    assert!(!s.end(EndStage::End));
    assert_eq!(s.triggered, 5);
    assert_eq!(s.completed, 3);
    assert!(!s.active);
    assert_eq!(s.active_events.as_slice(), &[b]);
}

#[test]
fn ending_an_unknown_event_does_nothing() {
    let (a, b) = two_ids();
    let mut s = FragmentState::default();
    s.begin(&begin(BeginStage::Start, a));
    assert!(!s.release(b));
    assert_eq!(s.active_events.as_slice(), &[a]);
    assert!(s.active);
}

#[test]
fn interrupt_and_visit_leave_counts() {
    let (a, _) = two_ids();
    let mut s = FragmentState::default();
    s.begin(&begin(BeginStage::Start, a));
    assert!(s.release(a));
    assert!(s.end(EndStage::Interrupt));
    assert_eq!(s.completed, 0);
    assert!(s.active);
    assert!(!s.end(EndStage::Visit));
    assert_eq!(s.completed, 0);
}

#[test]
fn clone_copies_everything() {
    let (a, b) = two_ids();
    let s = FragmentState {
        triggered: 7,
        completed: 6,
        active: true,
        active_events: ActiveEvents::new(vec![a, b]),
    };
    let c = s.clone();
    assert_eq!(c.triggered, 7);
    assert_eq!(c.completed, 6);
    assert!(c.active);
    assert_eq!(c.active_events.as_slice(), &[a, b]);
}

#[test]
fn leaves_emit_their_data_under_the_event() {
    let (a, _) = two_ids();
    let leaf = DataLeaf::new(String::from("line"));
    let event = begin(BeginStage::Start, a);
    let emitted = leaf_event(&event, leaf.into_value());
    assert_eq!(emitted.id, event.id);
    assert_eq!(emitted.data, "line");
}

#[test]
fn a_path_started_then_ended_completes_every_fragment() {
    let (a, b) = two_ids();
    let mut path: Vec<FragmentState> = (0..3).map(|_| FragmentState::default()).collect();
    path[1].begin(&begin(BeginStage::Visit, b));
    for s in path.iter_mut() {
        s.begin(&begin(BeginStage::Start, a));
    }
    for s in path.iter_mut() {
        assert!(s.release(a));
        assert!(!s.end(EndStage::End));
    }
    for (k, s) in path.iter().enumerate() {
        assert_eq!(s.triggered, 1);
        assert_eq!(s.completed, 1);
        assert!(!s.active);
        if k == 1 {
            assert_eq!(s.active_events.as_slice(), &[b]);
        } else {
            assert!(s.active_events.as_slice().is_empty());
        }
    }
}

use bevy_sequence::combinators::save::{
    sync_all, Hierarchy, Mismatch, Save, SavedNode, SavedSequences, SequenceState,
};
use bevy_sequence::fragment::event::ActiveEvents;
use bevy_sequence::fragment::FragmentState;
use std::any::TypeId;
use std::borrow::Cow;

fn state(triggered: u32, completed: u32, active: bool) -> FragmentState {
    FragmentState { triggered, completed, active, active_events: ActiveEvents::default() }
}

/// root -> (a -> (c), b)
fn tree(states: [u32; 4]) -> Hierarchy {
    let mut h = Hierarchy::new();
    let root = h.add_root(Some(state(states[0], 0, false)));
    let a = h.add_child(root, Some(state(states[1], 1, true)));
    let _b = h.add_child(root, Some(state(states[2], 2, false)));
    let _c = h.add_child(a, Some(state(states[3], 3, true)));
    h
}

fn triggered(h: &Hierarchy) -> Vec<Option<u32>> {
    (0..h.len()).map(|i| h.state(i).map(|s| s.triggered)).collect()
}

#[test]
fn saving_and_loading_restores_a_tree_of_the_same_shape() {
    let first = tree([5, 6, 7, 8]);
    let mut saved = SavedSequences::default();
    let mut seq = SequenceState::new(Cow::Borrowed("intro"), None);
    seq.sync(&first, 0, &mut saved);

    let mut second = tree([0, 0, 0, 0]);
    let mut fresh = SequenceState::new(Cow::Borrowed("intro"), None);
    let report = fresh.load(&saved, &mut second, 0);
    assert!(report.is_empty());
    assert_eq!(triggered(&second), vec![Some(5), Some(6), Some(7), Some(8)]);
    assert_eq!(second.state(3).unwrap().completed, 3);
    assert!(second.state(3).unwrap().active);
}

#[test]
fn loading_an_unknown_name_changes_nothing() {
    let first = tree([5, 6, 7, 8]);
    let mut saved = SavedSequences::default();
    SequenceState::new(Cow::Borrowed("intro"), None).sync(&first, 0, &mut saved);

    let mut second = tree([1, 2, 3, 4]);
    let mut other = SequenceState::new(Cow::Borrowed("outro"), None);
    let report = other.load(&saved, &mut second, 0);
    assert!(report.is_empty());
    assert_eq!(triggered(&second), vec![Some(1), Some(2), Some(3), Some(4)]);
}

#[test]
fn a_different_number_of_children_is_reported() {
    let first = tree([5, 6, 7, 8]);
    let mut saved = SavedSequences::default();
    SequenceState::new(Cow::Borrowed("intro"), None).sync(&first, 0, &mut saved);

    let mut second = Hierarchy::new();
    let root = second.add_root(Some(state(0, 0, false)));
    let _only = second.add_child(root, Some(state(0, 0, false)));
    let report = SequenceState::new(Cow::Borrowed("intro"), None).load(&saved, &mut second, root);
    assert_eq!(report, vec![Mismatch::ChildCount { node: 0, saved: 2, found: 1 }]);
    assert_eq!(triggered(&second), vec![Some(5), Some(0)]);
}

#[test]
fn missing_children_are_reported() {
    let first = tree([5, 6, 7, 8]);
    let mut saved = SavedSequences::default();
    SequenceState::new(Cow::Borrowed("intro"), None).sync(&first, 0, &mut saved);

    let mut second = Hierarchy::new();
    let root = second.add_root(Some(state(0, 0, false)));
    let report = SequenceState::new(Cow::Borrowed("intro"), None).load(&saved, &mut second, root);
    assert_eq!(report, vec![Mismatch::MissingChildren { node: 0, saved: 2 }]);
    assert_eq!(triggered(&second), vec![Some(5)]);
}

#[test]
fn entities_without_state_are_skipped() {
    let mut first = Hierarchy::new();
    let root = first.add_root(Some(state(9, 0, false)));
    let _plain = first.add_child(root, None);
    let mut saved = SavedSequences::default();
    SequenceState::new(Cow::Borrowed("s"), None).sync(&first, root, &mut saved);

    let mut second = Hierarchy::new();
    let root2 = second.add_root(Some(state(0, 0, false)));
    let _plain2 = second.add_child(root2, None);
    let report = SequenceState::new(Cow::Borrowed("s"), None).load(&saved, &mut second, root2);
    assert!(report.is_empty());
    assert_eq!(triggered(&second), vec![Some(9), None]);
}

#[test]
fn a_sequence_keeps_its_own_tree_once_loaded() {
    let first = tree([5, 6, 7, 8]);
    let mut saved = SavedSequences::default();
    let mut seq = SequenceState::new(Cow::Borrowed("intro"), None);
    seq.sync(&first, 0, &mut saved);

    let later = tree([1, 1, 1, 1]);
    SequenceState::new(Cow::Borrowed("intro"), None).sync(&later, 0, &mut saved);

    let mut second = tree([0, 0, 0, 0]);
    let report = seq.load(&saved, &mut second, 0);
    assert!(report.is_empty());
    assert_eq!(triggered(&second), vec![Some(5), Some(6), Some(7), Some(8)]);
}

#[test]
fn store_then_get_gives_back_the_tree() {
    let first = tree([3, 4, 5, 6]);
    let mut saved = SavedSequences::default();
    assert!(saved.get(&Cow::Borrowed("x")).is_none());
    SequenceState::new(Cow::Owned(String::from("x")), None).sync(&first, 0, &mut saved);
    assert!(saved.get(&Cow::Borrowed("x")).is_some());
    assert!(saved.get(&Cow::Borrowed("y")).is_none());
    let nodes = saved.get(&Cow::Borrowed("x")).unwrap();
    let mut second = tree([0, 0, 0, 0]);
    let mut report = Vec::new();
    assert_eq!(second.apply_saved_state(0, &nodes, &mut report), Some(()));
    assert!(report.is_empty());
    assert_eq!(triggered(&second), vec![Some(3), Some(4), Some(5), Some(6)]);
}

#[test]
fn save_keeps_fragment_and_name() {
    let save = Save::new(42u8, Cow::Borrowed("name"));
    let (fragment, name) = save.into_parts();
    assert_eq!(fragment, 42);
    assert_eq!(name, "name");
}

#[test]
fn restoring_what_was_just_saved_changes_nothing() {
    let mut h = tree([2, 3, 4, 5]);
    let mut saved = SavedSequences::default();
    let mut seq = SequenceState::new(Cow::Borrowed("same"), None);
    seq.sync(&h, 0, &mut saved);
    let report = SequenceState::new(Cow::Borrowed("same"), None).load(&saved, &mut h, 0);
    assert!(report.is_empty());
    assert_eq!(triggered(&h), vec![Some(2), Some(3), Some(4), Some(5)]);
    assert_eq!(seq.name(), "same");
}

#[test]
fn restoring_from_a_child_touches_only_its_subtree() {
    let first = tree([5, 6, 7, 8]);
    let mut saved = SavedSequences::default();
    SequenceState::new(Cow::Borrowed("sub"), None).sync(&first, 1, &mut saved);

    let mut second = tree([0, 0, 0, 0]);
    let report = SequenceState::new(Cow::Borrowed("sub"), None).load(&saved, &mut second, 1);
    assert!(report.is_empty());
    assert_eq!(triggered(&second), vec![Some(0), Some(6), Some(0), Some(8)]);
}

#[test]
fn reusing_a_name_for_another_type_is_reported() {
    let first = tree([1, 2, 3, 4]);
    let mut saved = SavedSequences::default();
    let mut a = SequenceState::new(Cow::Borrowed("n"), Some(TypeId::of::<u8>()));
    assert!(!a.sync(&first, 0, &mut saved));
    assert!(!a.sync(&first, 0, &mut saved));
    let mut b = SequenceState::new(Cow::Borrowed("n"), Some(TypeId::of::<u16>()));
    assert!(b.sync(&first, 0, &mut saved));
    assert!(!b.sync(&first, 0, &mut saved));
    let mut c = SequenceState::new(Cow::Borrowed("n"), None);
    assert!(!c.sync(&first, 0, &mut saved));
    let copy = saved.clone();
    assert!(copy.get(&Cow::Borrowed("n")).is_some());
    let q = c.clone();
    assert_eq!(q.name(), "n");
}

#[test]
fn saving_twice_gives_the_same_tree() {
    let h = tree([5, 6, 7, 8]);
    let mut saved = SavedNode::default();
    h.get_saved_state(0, &mut saved);
    let once = format!("{:?}", saved);
    h.get_saved_state(0, &mut saved);
    assert_eq!(format!("{:?}", saved), once);
}

#[test]
fn saving_after_restoring_gives_the_restored_tree() {
    let source = tree([5, 6, 7, 8]);
    let mut s = SavedNode::default();
    assert_eq!(source.get_saved_state(0, &mut s), Some(()));

    let mut target = tree([0, 0, 0, 0]);
    let mut report = Vec::new();
    target.apply_saved_state(0, &s, &mut report);
    assert!(report.is_empty());
    let mut t = SavedNode::default();
    target.get_saved_state(0, &mut t);
    assert_eq!(format!("{:?}", t), format!("{:?}", s));
    assert_eq!(triggered(&target), vec![Some(5), Some(6), Some(7), Some(8)]);
}

#[test]
fn an_entity_without_state_is_neither_saved_nor_restored() {
    let mut h = Hierarchy::new();
    let root = h.add_root(Some(state(4, 0, false)));
    let plain = h.add_child(root, None);
    let mut s = SavedNode::default();
    assert_eq!(h.get_saved_state(root, &mut s), Some(()));
    let before = format!("{:?}", s);
    assert_eq!(h.get_saved_state(plain, &mut s), None);
    assert_eq!(h.get_saved_state(7, &mut s), None);
    assert_eq!(format!("{:?}", s), before);

    let mut report = Vec::new();
    assert_eq!(h.apply_saved_state(plain, &s, &mut report), None);
    assert_eq!(h.apply_saved_state(9, &s, &mut report), None);
    assert!(report.is_empty());
    assert_eq!(triggered(&h), vec![Some(4), None]);
}

#[test]
fn syncing_all_sequences_stores_each_under_its_name() {
    let mut sequences = vec![
        SequenceState::new(Cow::Borrowed("one"), Some(TypeId::of::<u8>())),
        SequenceState::new(Cow::Borrowed("two"), None),
    ];
    let trees = vec![tree([1, 2, 3, 4]), tree([5, 6, 7, 8])];
    let mut saved = SavedSequences::default();
    let reused = sync_all(&mut sequences, &trees, &mut saved);
    assert_eq!(reused, vec![false, false]);
    assert_eq!(sequences.len(), 2);

    for (name, expected) in [("one", [1, 2, 3, 4]), ("two", [5, 6, 7, 8])] {
        let mut into = tree([0, 0, 0, 0]);
        let report = SequenceState::new(Cow::Borrowed(name), None).load(&saved, &mut into, 0);
        assert!(report.is_empty());
        let got: Vec<Option<u32>> = expected.iter().map(|t| Some(*t)).collect();
        assert_eq!(triggered(&into), got);
    }
    let mut into = tree([0, 0, 0, 0]);
    sequences[1].load(&saved, &mut into, 0);
    assert_eq!(triggered(&into), vec![Some(5), Some(6), Some(7), Some(8)]);
}

#[test]
fn syncing_all_sequences_twice_changes_nothing() {
    let mut sequences = vec![
        SequenceState::new(Cow::Borrowed("a"), None),
        SequenceState::new(Cow::Borrowed("b"), None),
    ];
    let trees = vec![tree([1, 2, 3, 4]), tree([5, 6, 7, 8])];
    let mut saved = SavedSequences::default();
    sync_all(&mut sequences, &trees, &mut saved);
    let once = (format!("{:?}", sequences), saved.get(&Cow::Borrowed("a")), saved.get(&Cow::Borrowed("b")));
    sync_all(&mut sequences, &trees, &mut saved);
    let twice = (format!("{:?}", sequences), saved.get(&Cow::Borrowed("a")), saved.get(&Cow::Borrowed("b")));
    assert_eq!(format!("{:?}", twice), format!("{:?}", once));
}

#[test]
fn a_later_sequence_with_the_same_name_and_another_type_is_reported() {
    let mut sequences = vec![
        SequenceState::new(Cow::Borrowed("n"), Some(TypeId::of::<u8>())),
        SequenceState::new(Cow::Borrowed("n"), Some(TypeId::of::<u16>())),
    ];
    let trees = vec![tree([1, 1, 1, 1]), tree([2, 2, 2, 2])];
    let mut saved = SavedSequences::default();
    assert_eq!(sync_all(&mut sequences, &trees, &mut saved), vec![false, true]);
    let mut into = tree([0, 0, 0, 0]);
    SequenceState::new(Cow::Borrowed("n"), None).load(&saved, &mut into, 0);
    assert_eq!(triggered(&into), vec![Some(2), Some(2), Some(2), Some(2)]);
}

use bevy_sequence::combinators::select::SelectActiveNode;
use bevy_sequence::fragment::FragmentState;

#[test]
fn idle_node_takes_the_fresh_choice() {
    let (node, flags) = SelectActiveNode::select_round(false, SelectActiveNode(0), Some(2), 4);
    assert_eq!(node, SelectActiveNode(2));
    assert_eq!(flags, vec![false, false, true, false]);
}

#[test]
fn running_node_keeps_its_choice() {
    let (node, flags) = SelectActiveNode::select_round(true, SelectActiveNode(1), Some(3), 3);
    assert_eq!(node, SelectActiveNode(1));
    assert_eq!(flags, vec![false, true, false]);
}

#[test]
fn out_of_range_choice_selects_nothing() {
    let (node, flags) = SelectActiveNode::select_round(false, SelectActiveNode(0), Some(7), 3);
    assert_eq!(node, SelectActiveNode(7));
    assert_eq!(flags, vec![false, false, false]);
}

#[test]
fn only_idle_nodes_choose_again() {
    let mut state = FragmentState::default();
    assert!(SelectActiveNode::needs_new_choice(&state));
    state.active = true;
    assert!(!SelectActiveNode::needs_new_choice(&state));
}

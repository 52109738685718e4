use bevy_sequence::fragment::evaluation::{Evaluate, Evaluation};

#[test]
fn a_bool_is_one_evaluation() {
    assert_eq!(true.evaluate(), Evaluation { count: 1, held: 1 });
    assert_eq!(false.evaluate(), Evaluation { count: 1, held: 0 });
}

#[test]
fn an_evaluation_evaluates_to_itself() {
    let e = Evaluation { count: 4, held: 3 };
    assert_eq!(e.evaluate(), e);
}

#[test]
fn merging_adds_both_counts() {
    let mut e = Evaluation::default();
    assert_eq!(e, Evaluation { count: 0, held: 0 });
    e.merge(true.evaluate());
    e.merge(false.evaluate());
    e.merge(Evaluation { count: 5, held: 2 });
    assert_eq!(e, Evaluation { count: 7, held: 3 });
}

#[test]
fn merging_stops_at_the_largest_count() {
    let mut e = Evaluation { count: u32::MAX - 1, held: 7 };
    e.merge(Evaluation { count: 5, held: u32::MAX });
    assert_eq!(e, Evaluation { count: u32::MAX, held: u32::MAX });
}

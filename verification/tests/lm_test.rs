use ctclib::{SequenceState, SequenceStateRef, ZeroLM, LM};

#[test]
fn child_interns_one_node_per_parent_and_token() {
    let mut tree = SequenceState::new(4);
    let root = SequenceStateRef::new();
    let a = root.child(&mut tree, 0);
    let a_again = root.child(&mut tree, 0);
    assert_eq!(a, a_again);
    let b = root.child(&mut tree, 1);
    assert_ne!(a, b);
    assert_ne!(a, root);
    assert_ne!(b, root);
}

#[test]
fn distinct_parents_intern_distinct_children() {
    let mut tree = SequenceState::new(3);
    let root = SequenceStateRef::new();
    let a = root.child(&mut tree, 0);
    let aa = a.child(&mut tree, 0);
    assert_ne!(a, aa);
    let ab = a.child(&mut tree, 1);
    assert_ne!(aa, ab);
    // revisiting the same path finds the same identities
    assert_eq!(root.child(&mut tree, 0), a);
    assert_eq!(a.child(&mut tree, 0), aa);
}

#[test]
fn end_of_sentence_absorbs_into_the_node() {
    let mut tree = SequenceState::new(2);
    let root = SequenceStateRef::new();
    let a = root.child(&mut tree, 1);
    assert_eq!(a.child(&mut tree, -1), a);
    assert_eq!(root.child(&mut tree, -1), root);
}

#[test]
fn zero_lm_scores_everything_zero() {
    let mut lm = ZeroLM;
    let s = lm.start();
    assert_eq!(lm.score(&s, 3), 0);
    let s2 = lm.next_state(&s, 3);
    assert_eq!(lm.finish(&s2), 0);
}

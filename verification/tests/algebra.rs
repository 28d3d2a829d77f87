use smartshare::ot::{Atom, OpStep, Operation, OtError};

fn doc(s: &str) -> Vec<char> {
    s.chars().collect()
}

fn text(v: &[char]) -> String {
    v.iter().collect()
}

fn insert_at(pos: usize, s: &str, len: usize) -> Operation {
    let mut op = Operation::new();
    op.retain(pos);
    op.insert(&doc(s));
    op.retain(len - pos);
    op
}

fn delete_at(pos: usize, n: usize, len: usize) -> Operation {
    let mut op = Operation::new();
    op.retain(pos);
    op.delete(n);
    op.retain(len - pos - n);
    op
}

#[test]
fn builder_merges_adjacent_steps() {
    let mut op = Operation::new();
    op.retain(2);
    op.retain(3);
    op.insert(&doc("ab"));
    op.insert(&doc("cd"));
    op.delete(1);
    op.delete(2);
    assert_eq!(
        *op.steps,
        vec![
            OpStep::Retain(5),
            OpStep::Insert(doc("abcd")),
            OpStep::Delete(3)
        ]
    );
}

#[test]
fn lengths_sum_retains_inserts_deletes() {
    let mut op = Operation::new();
    op.retain(2);
    op.insert(&doc("ab"));
    op.delete(1);
    assert_eq!(op.base_len(), 3);
    assert_eq!(op.target_len(), 4);
}

#[test]
fn noop_detection() {
    let mut op = Operation::new();
    op.retain(4);
    assert!(op.is_noop());
    assert!(Operation::new().is_noop());
    assert!(Operation::noop(7).is_noop());
    op.insert(&doc("x"));
    assert!(!op.is_noop());
    assert!(!delete_at(0, 1, 1).is_noop());
}

#[test]
fn apply_splices_text() {
    let op = insert_at(1, "c", 2);
    let out = op.apply(&doc("ab")).unwrap();
    assert_eq!(text(&out), "acb");
    let del = delete_at(0, 1, 3);
    assert_eq!(text(&del.apply(&doc("acb")).unwrap()), "cb");
}

#[test]
fn apply_rejects_wrong_length() {
    let op = insert_at(1, "c", 2);
    assert_eq!(op.apply(&doc("abc")), Err(OtError::LengthMismatch));
}

#[test]
fn compose_is_sequencing() {
    let a = insert_at(1, "c", 2);
    let b = delete_at(0, 1, 3);
    let ab = a.compose(&b).unwrap();
    assert_eq!(ab.base_len(), 2);
    assert_eq!(ab.target_len(), 2);
    assert_eq!(text(&ab.apply(&doc("ab")).unwrap()), "cb");
}

#[test]
fn compose_rejects_incompatible_lengths() {
    let a = insert_at(0, "x", 1);
    let b = delete_at(0, 1, 5);
    assert_eq!(a.compose(&b), Err(OtError::IncompatibleLengths));
}

#[test]
fn compose_identity_both_sides() {
    let op = insert_at(1, "zz", 2);
    let left = Operation::noop(op.base_len()).compose(&op).unwrap();
    let right = op.compose(&Operation::noop(op.target_len())).unwrap();
    assert_eq!(left, op);
    assert_eq!(right, op);
}

#[test]
fn compose_is_associative() {
    let a = insert_at(1, "c", 2);
    let b = delete_at(0, 1, 3);
    let c = insert_at(2, "d", 2);
    let left = a.compose(&b).unwrap().compose(&c).unwrap();
    let right = a.compose(&b.compose(&c).unwrap()).unwrap();
    assert_eq!(left, right);
}

#[test]
fn transform_rejects_incompatible_lengths() {
    let a = insert_at(0, "x", 1);
    let b = delete_at(0, 1, 5);
    assert_eq!(a.transform(&b), Err(OtError::IncompatibleLengths));
}

#[test]
fn transform_converges() {
    let d = doc("ab");
    let a = insert_at(0, "x", 2);
    let b = delete_at(1, 1, 2);
    let (a1, b1) = a.transform(&b).unwrap();
    let via_b = b.compose(&a1).unwrap().apply(&d).unwrap();
    let via_a = a.compose(&b1).unwrap().apply(&d).unwrap();
    assert_eq!(via_b, via_a);
    assert_eq!(text(&via_b), "xa");
}

#[test]
fn transform_tie_break_prefers_left_insert() {
    let d = doc("");
    let a = insert_at(0, "A", 0);
    let b = insert_at(0, "B", 0);
    let (a1, b1) = a.transform(&b).unwrap();
    let via_b = b.compose(&a1).unwrap().apply(&d).unwrap();
    let via_a = a.compose(&b1).unwrap().apply(&d).unwrap();
    assert_eq!(text(&via_b), "AB");
    assert_eq!(text(&via_a), "AB");
}

#[test]
fn duplicate_preserves_effect() {
    let op = insert_at(1, "c", 2);
    let copy = op.duplicate();
    assert_eq!(copy.apply(&doc("ab")), op.apply(&doc("ab")));
}

#[test]
fn atom_expansion_is_observable_through_apply() {
    let mut op = Operation::new();
    op.insert_char('x');
    op.retain(1);
    assert_eq!(text(&op.apply(&doc("y")).unwrap()), "xy");
    let _ = Atom::Keep;
}

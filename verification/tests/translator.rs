use smartshare::ot::Operation;
use smartshare::translate::{
    edits_to_operation, operation_to_edits, TextModification, TranslateError,
};

fn doc(s: &str) -> Vec<char> {
    s.chars().collect()
}

fn text(v: &[char]) -> String {
    v.iter().collect()
}

fn edit(offset: usize, delete: usize, s: &str) -> TextModification {
    TextModification {
        offset,
        delete,
        text: doc(s),
    }
}

fn apply_edit_list(edits: &[TextModification], d: &str) -> String {
    let mut cur: Vec<char> = doc(d);
    for e in edits {
        let mut next: Vec<char> = Vec::new();
        next.extend_from_slice(&cur[..e.offset]);
        next.extend_from_slice(&e.text);
        next.extend_from_slice(&cur[e.offset + e.delete..]);
        cur = next;
    }
    text(&cur)
}

#[test]
fn single_insert_translates() {
    let op = edits_to_operation(&vec![edit(1, 0, "c")], 2).unwrap();
    assert_eq!(text(&op.apply(&doc("ab")).unwrap()), "acb");
}

#[test]
fn batch_offsets_run_against_updated_text() {
    let batch = vec![edit(1, 0, "c"), edit(3, 1, "XY")];
    let op = edits_to_operation(&batch, 3).unwrap();
    assert_eq!(text(&op.apply(&doc("abz")).unwrap()), "acbXY");
    assert_eq!(apply_edit_list(&batch, "abz"), "acbXY");
}

#[test]
fn out_of_range_edit_is_rejected() {
    assert_eq!(
        edits_to_operation(&vec![edit(3, 0, "x")], 2),
        Err(TranslateError::OutOfRange)
    );
    assert_eq!(
        edits_to_operation(&vec![edit(0, 3, "")], 2),
        Err(TranslateError::OutOfRange)
    );
}

#[test]
fn operation_to_edits_is_minimal() {
    let mut op = Operation::new();
    op.retain(1);
    op.insert(&doc("c"));
    op.retain(1);
    let edits = operation_to_edits(&op);
    assert_eq!(edits, vec![edit(1, 0, "c")]);
    let mut op2 = Operation::new();
    op2.delete(1);
    op2.insert(&doc("xy"));
    op2.retain(1);
    op2.delete(1);
    let edits2 = operation_to_edits(&op2);
    assert_eq!(edits2.len(), 2);
}

#[test]
fn round_trip_preserves_net_effect() {
    let batch = vec![edit(1, 0, "c"), edit(0, 2, "Q"), edit(1, 1, "rs")];
    let op = edits_to_operation(&batch, 3).unwrap();
    let back = operation_to_edits(&op);
    assert_eq!(apply_edit_list(&back, "abz"), apply_edit_list(&batch, "abz"));
    assert_eq!(
        apply_edit_list(&back, "abz"),
        text(&op.apply(&doc("abz")).unwrap())
    );
}

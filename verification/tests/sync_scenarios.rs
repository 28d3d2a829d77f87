use smartshare::ot::Operation;
use smartshare::sync::{ClientSyncState, SyncError, SyncStatus};
use smartshare::translate::TextModification;

fn doc(s: &str) -> Vec<char> {
    s.chars().collect()
}

fn text(v: &[char]) -> String {
    v.iter().collect()
}

fn edit(offset: usize, delete: usize, s: &str) -> TextModification {
    TextModification {
        offset,
        delete,
        text: doc(s),
    }
}

/// A client over the document "ab" with nothing in flight.
fn synced_over_ab() -> ClientSyncState {
    let mut st = ClientSyncState::new();
    st.on_receive_file(2, 0);
    st
}

#[test]
fn new_state_is_synced_at_revision_zero() {
    let st = ClientSyncState::new();
    assert_eq!(st.rev_num, 0);
    assert_eq!(st.status(), SyncStatus::Synced);
}

#[test]
fn local_edit_while_synced_submits_immediately() {
    let mut st = synced_over_ab();
    let req = st.on_ide_change(&vec![edit(1, 0, "c")]).unwrap().unwrap();
    assert_eq!(req.rev_num, 0);
    assert_eq!(text(&req.delta.apply(&doc("ab")).unwrap()), "acb");
    assert_eq!(text(&st.sent_delta.apply(&doc("ab")).unwrap()), "acb");
    assert!(st.unsent_delta.is_noop());
    assert_eq!(st.unsent_delta.target_len(), 3);
    assert_eq!(st.status(), SyncStatus::AwaitingAck);
}

#[test]
fn local_edit_while_awaiting_ack_buffers() {
    let mut st = synced_over_ab();
    let _ = st.on_ide_change(&vec![edit(1, 0, "c")]).unwrap().unwrap();
    let second = st.on_ide_change(&vec![edit(3, 0, "d")]).unwrap();
    assert!(second.is_none());
    assert!(!st.unsent_delta.is_noop());
    assert_eq!(st.status(), SyncStatus::AwaitingAckWithBuffer);
    assert_eq!(text(&st.unsent_delta.apply(&doc("acb")).unwrap()), "acbd");
}

#[test]
fn ack_clears_flight_and_submits_buffer() {
    let mut st = synced_over_ab();
    let _ = st.on_ide_change(&vec![edit(1, 0, "c")]).unwrap().unwrap();
    let _ = st.on_ide_change(&vec![edit(3, 0, "d")]).unwrap();
    let req = st.on_ack().unwrap();
    assert_eq!(st.rev_num, 1);
    assert_eq!(req.rev_num, 1);
    assert_eq!(text(&req.delta.apply(&doc("acb")).unwrap()), "acbd");
    assert_eq!(text(&st.sent_delta.apply(&doc("acb")).unwrap()), "acbd");
    assert!(st.unsent_delta.is_noop());
    assert_eq!(st.status(), SyncStatus::AwaitingAck);
}

#[test]
fn ack_with_empty_buffer_returns_to_synced() {
    let mut st = synced_over_ab();
    let _ = st.on_ide_change(&vec![edit(1, 0, "c")]).unwrap().unwrap();
    let req = st.on_ack();
    assert!(req.is_none());
    assert_eq!(st.rev_num, 1);
    assert_eq!(st.status(), SyncStatus::Synced);
    assert_eq!(st.server_state.target_len(), 3);
}

#[test]
fn broadcast_rebases_through_flight_buffers() {
    let mut st = synced_over_ab();
    let _ = st.on_ide_change(&vec![edit(1, 0, "c")]).unwrap().unwrap();
    let mut remote = Operation::new();
    remote.delete(1);
    remote.retain(1);
    let for_editor = st.on_server_change(&remote, 1).unwrap();
    assert_eq!(st.rev_num, 1);
    assert_eq!(text(&for_editor.apply(&doc("acb")).unwrap()), "cb");
    assert_eq!(st.server_state.target_len(), 1);
    assert_eq!(text(&st.sent_delta.apply(&doc("b")).unwrap()), "cb");
    assert_eq!(st.status(), SyncStatus::AwaitingAck);
}

#[test]
fn stale_broadcast_desynchronizes_without_mutation() {
    let mut st = synced_over_ab();
    let _ = st.on_ide_change(&vec![edit(1, 0, "c")]).unwrap().unwrap();
    let sent_before = st.sent_delta.clone();
    let mut remote = Operation::new();
    remote.delete(1);
    remote.retain(1);
    let r = st.on_server_change(&remote, 5);
    assert_eq!(r, Err(SyncError::Desynchronized));
    assert_eq!(st.rev_num, 0);
    assert_eq!(st.sent_delta, sent_before);
    assert_eq!(st.status(), SyncStatus::AwaitingAck);
    st.on_receive_file(1, 5);
    assert_eq!(st.rev_num, 5);
    assert_eq!(st.status(), SyncStatus::Synced);
}

#[test]
fn rejected_edit_mutates_nothing() {
    let mut st = synced_over_ab();
    let r = st.on_ide_change(&vec![edit(7, 0, "x")]);
    assert!(r.is_err());
    assert_eq!(st.status(), SyncStatus::Synced);
    assert_eq!(st.unsent_delta.target_len(), 2);
}

#[test]
fn ide_file_restarts_at_revision_zero() {
    let mut st = synced_over_ab();
    st.on_ide_file(4);
    assert_eq!(st.rev_num, 0);
    assert_eq!(st.server_state.target_len(), 4);
    assert_eq!(st.status(), SyncStatus::Synced);
}

#[test]
fn invariants_hold_across_event_sequences() {
    let mut st = synced_over_ab();
    let check = |st: &ClientSyncState| {
        assert_eq!(st.sent_delta.base_len(), st.server_state.target_len());
        assert_eq!(st.unsent_delta.base_len(), st.sent_delta.target_len());
    };
    check(&st);
    let _ = st.on_ide_change(&vec![edit(1, 0, "c")]).unwrap();
    check(&st);
    let _ = st.on_ide_change(&vec![edit(3, 0, "d")]).unwrap();
    check(&st);
    let mut remote = Operation::new();
    remote.delete(1);
    remote.retain(1);
    let _ = st.on_server_change(&remote, 1).unwrap();
    check(&st);
    let _ = st.on_ack();
    check(&st);
    let _ = st.on_ack();
    check(&st);
    assert_eq!(st.status(), SyncStatus::Synced);
}

#[test]
fn empty_edit_batch_does_not_submit() {
    let mut st = synced_over_ab();
    let r = st.on_ide_change(&vec![]).unwrap();
    assert!(r.is_none());
    assert_eq!(st.status(), SyncStatus::Synced);
}

#[test]
fn broadcast_while_buffered_rebases_all_three() {
    let mut st = synced_over_ab();
    let _ = st.on_ide_change(&vec![edit(1, 0, "c")]).unwrap().unwrap();
    let _ = st.on_ide_change(&vec![edit(3, 0, "d")]).unwrap();
    let mut remote = Operation::new();
    remote.retain(2);
    remote.insert(&doc("Z"));
    let for_editor = st.on_server_change(&remote, 1).unwrap();
    // Editor text was "acbd"; the remote insert lands after "ab", which is
    // after "acb" once rebased over the local insert of "c".
    assert_eq!(text(&for_editor.apply(&doc("acbd")).unwrap()), "acbZd");
    assert_eq!(st.sent_delta.base_len(), st.server_state.target_len());
    assert_eq!(st.unsent_delta.base_len(), st.sent_delta.target_len());
    assert_eq!(st.status(), SyncStatus::AwaitingAckWithBuffer);
}

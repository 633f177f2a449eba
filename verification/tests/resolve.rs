use project::resolve::{live_merges_index, per_session_active_set};
use project::{BranchId, LogEntry, LogPayload, SessionId};
use std::collections::BTreeSet;

fn entry(lamport: u64, payload: LogPayload) -> LogEntry {
    LogEntry { lamport, session: SessionId(7), wall_clock: None, payload }
}

fn change() -> LogPayload {
    LogPayload::Changes(std::sync::Arc::new(Vec::new()))
}

fn active(payloads: Vec<LogPayload>) -> Vec<usize> {
    let entries: Vec<LogEntry> =
        payloads.into_iter().enumerate().map(|(i, p)| entry(i as u64, p)).collect();
    let refs: Vec<&LogEntry> = entries.iter().collect();
    let set: BTreeSet<usize> = per_session_active_set(&refs);
    set.into_iter().collect()
}

#[test]
fn active_set_undo_cancels_latest_change() {
    let a = active(vec![change(), change(), change(), LogPayload::Undo, change()]);
    assert_eq!(a, vec![0, 1, 4]);
}

#[test]
fn active_set_three_undos_after_branchy_history() {
    let a = active(vec![
        change(),
        change(),
        change(),
        LogPayload::Undo,
        change(),
        LogPayload::Undo,
        LogPayload::Undo,
    ]);
    assert_eq!(a, vec![0]);
}

#[test]
fn active_set_redo_after_new_edit_brings_back_undone() {
    let a = active(vec![change(), LogPayload::Undo, change(), LogPayload::Redo]);
    assert_eq!(a, vec![0, 2]);
}

#[test]
fn active_set_undo_after_redo_targets_max_active() {
    let a = active(vec![change(), LogPayload::Undo, change(), LogPayload::Redo, LogPayload::Undo]);
    assert_eq!(a, vec![0]);
}

#[test]
fn active_set_undo_on_empty_is_noop() {
    assert_eq!(active(vec![LogPayload::Undo]), Vec::<usize>::new());
}

#[test]
fn active_set_redo_on_empty_buffer_is_noop() {
    assert_eq!(active(vec![change(), LogPayload::Redo]), vec![0]);
}

#[test]
fn active_set_redo_reverts_undo() {
    let before = active(vec![change(), change()]);
    let after = active(vec![change(), change(), LogPayload::Undo, LogPayload::Redo]);
    assert_eq!(before, after);
}

#[test]
fn active_set_merges_are_undoable_and_others_ignored() {
    let a = active(vec![
        LogPayload::NewSession { user: project::UserId(0), branch: BranchId(0) },
        LogPayload::MergeBranch { from: BranchId(1), into: BranchId(0) },
        LogPayload::Checkpoint(project::CheckpointId(3)),
        change(),
        LogPayload::Undo,
    ]);
    assert_eq!(a, vec![1]);
}

#[test]
fn merges_index_keeps_merge_entries_in_order() {
    let entries = vec![
        entry(1, LogPayload::MergeBranch { from: BranchId(1), into: BranchId(0) }),
        entry(2, change()),
        entry(5, LogPayload::MergeBranch { from: BranchId(2), into: BranchId(1) }),
    ];
    let refs: Vec<&LogEntry> = entries.iter().collect();
    let idx = live_merges_index(&refs);
    assert_eq!(
        idx.merges,
        vec![(BranchId(0), BranchId(1), 1), (BranchId(1), BranchId(2), 5)]
    );
}

fn merge(lamport: u64, from: u128, into: u128) -> LogEntry {
    entry(lamport, LogPayload::MergeBranch { from: BranchId(from), into: BranchId(into) })
}

fn visible(merges: &[LogEntry], op_lamport: u64, op_branch: u128, view: u128, as_of: u64) -> bool {
    let refs: Vec<&LogEntry> = merges.iter().collect();
    let idx = live_merges_index(&refs);
    project::resolve::op_is_visible(op_lamport, BranchId(op_branch), BranchId(view), as_of, &idx)
}

#[test]
fn ops_on_the_viewed_branch_are_visible() {
    assert!(visible(&[], 5, 0, 0, 0));
}

#[test]
fn edits_on_unmerged_branch_are_invisible() {
    assert!(!visible(&[], 5, 1, 0, 100));
}

#[test]
fn merge_imports_ops_made_before_it() {
    let merges = [merge(10, 1, 0)];
    assert!(visible(&merges, 5, 1, 0, 10));
    assert!(visible(&merges, 5, 1, 0, 50));
    assert!(!visible(&merges, 5, 1, 0, 9));
    assert!(!visible(&merges, 12, 1, 0, 50));
    assert!(!visible(&merges, 10, 1, 0, 50));
}

#[test]
fn multi_hop_merge_respects_per_hop_order() {
    // c merged into b at 15, b merged into main at 20.
    let merges = [merge(15, 2, 1), merge(20, 1, 0)];
    assert!(visible(&merges, 10, 2, 0, 20));
    assert!(!visible(&merges, 16, 2, 0, 20));
    // b merged into main at 15, and only later c into b at 20.
    let merges = [merge(15, 1, 0), merge(20, 2, 1)];
    assert!(!visible(&merges, 10, 2, 0, 100));
    assert!(visible(&merges, 10, 2, 1, 100));
}

#[test]
fn later_re_merge_imports_newer_ops() {
    let merges = [merge(10, 1, 0), merge(30, 1, 0)];
    assert!(!visible(&merges, 20, 1, 0, 29));
    assert!(visible(&merges, 20, 1, 0, 30));
}

#[test]
fn as_of_at_the_largest_lamport_saturates() {
    let merges = [merge(u64::MAX, 1, 0), merge(7, 1, 0)];
    assert!(visible(&merges, 3, 1, 0, u64::MAX));
    assert!(!visible(&merges, 8, 1, 0, u64::MAX));
}

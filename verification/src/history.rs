//! Laws of the history: what undo and redo do to the view of a project.

use vstd::prelude::*;
use crate::ids::{BranchId, DataId, DocumentId, ModuleId, SessionId, UserId};
use crate::oplog::{Change, LogEntry, LogPayload};
use crate::apply::{logged_in_session, same_replica};
use crate::project::{clock_ahead, fresh_entries, log_keys, Project};
use crate::replay::{
    ModuleCode,
    entry_active, entry_visible, in_scope, insert_pos, key_before, key_sorted, lemma_insert_pos, lemma_key_sorted,
    live_merges, replay_log, session_branch, session_payloads, user_of, view_result, with_kept_sections,
    changes_step, ViewModel, persistent_part, lemma_replay_persistent, lemma_kept_sections_persistent,
    change_step, first_pos, fresh_model, lemma_created_data_is_fresh, lemma_first_pos, lemma_persistent_first_pos, persistent_data,
};
use crate::resolve::{
    hop_into, incoming, is_merge_chain, lemma_incoming, op_visible, active_positions, last_active, lemma_new_change_is_active, lemma_redo_reverts_undo, lemma_undo_cancels_latest,
    lemma_undo_redo_wf,
    undo_redo_state,
};

verus! {

broadcast use vstd::seq_lib::group_seq_properties;

/// `ext` holds the entries of `log` first.
pub open spec fn extends(log: Seq<LogEntry>, ext: Seq<LogEntry>) -> bool {
    &&& log.len() <= ext.len()
    &&& forall|j: int| 0 <= j < log.len() ==> ext[j] == log[j]
}

/// An entry with a lamport above every lamport of `log` sorts last.
proof fn lemma_key_sorted_push(log: Seq<LogEntry>, e: LogEntry)
    requires
        forall|j: int| 0 <= j < log.len() ==> (#[trigger] log[j]).lamport < e.lamport,
    ensures
        key_sorted(log.push(e)) == key_sorted(log).push(e),
{
    let s = key_sorted(log);
    lemma_key_sorted(log);
    lemma_insert_pos(s, e);
    assert(log.push(e).drop_last() == log);
    if insert_pos(s, e) < s.len() {
        let x = s[insert_pos(s, e)];
        assert(s.to_multiset().count(x) > 0);
        assert(log.contains(x));
        let j = choose|j: int| 0 <= j < log.len() && log[j] == x;
        assert(log[j].lamport < e.lamport);
    }
    assert(s.insert(s.len() as int, e) =~= s.push(e));
}

/// The first `k` entries decide the session payloads up to `k`.
proof fn lemma_session_payloads_prefix(log: Seq<LogEntry>, ext: Seq<LogEntry>, s: SessionId, as_of: u64, k: int)
    requires
        extends(log, ext),
        0 <= k <= log.len(),
    ensures
        session_payloads(ext, s, as_of, k) == session_payloads(log, s, as_of, k),
    decreases k,
{
    if k > 0 {
        lemma_session_payloads_prefix(log, ext, s, as_of, k - 1);
        assert(ext[k - 1] == log[k - 1]);
    }
}

/// The first `k` entries decide the branch of a session found among them.
proof fn lemma_session_branch_prefix(log: Seq<LogEntry>, ext: Seq<LogEntry>, s: SessionId, as_of: u64, k: int)
    requires
        extends(log, ext),
        0 <= k <= log.len(),
    ensures
        session_branch(ext, s, as_of, k) == session_branch(log, s, as_of, k),
    decreases k,
{
    if k > 0 {
        lemma_session_branch_prefix(log, ext, s, as_of, k - 1);
        assert(ext[k - 1] == log[k - 1]);
    }
}

/// The first `k` entries, with the same activity, decide the live merges up to `k`.
proof fn lemma_live_merges_prefix(log: Seq<LogEntry>, ext: Seq<LogEntry>, as_of: u64, k: int)
    requires
        extends(log, ext),
        0 <= k <= log.len(),
        forall|i: int| 0 <= i < log.len() ==> entry_active(ext, i, as_of) == entry_active(log, i, as_of),
    ensures
        live_merges(ext, as_of, k) == live_merges(log, as_of, k),
    decreases k,
{
    if k > 0 {
        lemma_live_merges_prefix(log, ext, as_of, k - 1);
        assert(ext[k - 1] == log[k - 1]);
        assert(entry_active(ext, k - 1, as_of) == entry_active(log, k - 1, as_of));
    }
}

/// The first `k` entries, with the same activity and visibility, decide the
/// replay up to `k`.
proof fn lemma_replay_prefix<M: ModuleCode>(
    reg: Set<ModuleId>,
    code: M,
    log: Seq<LogEntry>,
    ext: Seq<LogEntry>,
    view: BranchId,
    as_of: u64,
    user: UserId,
    k: int,
)
    requires
        extends(log, ext),
        0 <= k <= log.len(),
        forall|i: int| 0 <= i < log.len() ==> entry_active(ext, i, as_of) == entry_active(log, i, as_of),
        forall|i: int|
            0 <= i < log.len() ==> entry_visible(ext, i, view, as_of) == entry_visible(log, i, view, as_of),
    ensures
        replay_log(reg, code, ext, view, as_of, user, k) == replay_log(reg, code, log, view, as_of, user, k),
    decreases k,
{
    if k > 0 {
        lemma_replay_prefix(reg, code, log, ext, view, as_of, user, k - 1);
        assert(ext[k - 1] == log[k - 1]);
        assert(entry_active(ext, k - 1, as_of) == entry_active(log, k - 1, as_of));
        assert(entry_visible(ext, k - 1, view, as_of) == entry_visible(log, k - 1, view, as_of));
    }
}

/// Logging a change and then undoing it in the same session leaves every
/// session's active entries as they were.
proof fn lemma_change_then_undo(ps: Seq<LogPayload>, c: LogPayload)
    requires
        c is Changes,
    ensures
        active_positions(ps.push(c).push(LogPayload::Undo)) == active_positions(ps),
        !active_positions(ps.push(c).push(LogPayload::Undo)).contains(ps.len() as int),
{
    let pc = ps.push(c);
    lemma_undo_redo_wf(ps);
    lemma_new_change_is_active(ps, c);
    lemma_undo_cancels_latest(pc);
    lemma_undo_redo_wf(pc);
    let j = last_active(undo_redo_state(pc).0, pc.len() as int);
    assert(active_positions(pc).contains(ps.len() as int));
    assert(j >= 0);
    assert(j == ps.len());
    assert(!active_positions(ps).contains(ps.len() as int));
    assert(active_positions(pc).remove(j) =~= active_positions(ps));
}

/// Undo reverts a change: when a session logs a change and then an undo,
/// both after every entry of the log, the view from any branch, at a time
/// that takes in both entries or neither, is what it was before the change.
pub proof fn lemma_undo_restores_view<M: ModuleCode>(
    reg: Set<ModuleId>,
    code: M,
    p: Project,
    q: Project,
    change: LogEntry,
    undo: LogEntry,
    view: BranchId,
    as_of: u64,
)
    requires
        change.payload is Changes,
        undo.payload == LogPayload::Undo,
        change.session == undo.session,
        forall|j: int| 0 <= j < p.log@.len() ==> (#[trigger] p.log@[j]).lamport < change.lamport,
        change.lamport < undo.lamport,
        in_scope(change, as_of) == in_scope(undo, as_of),
        q.log@ == p.log@.push(change).push(undo),
        q.user == p.user,
        q.session_data == p.session_data,
        q.shared_data == p.shared_data,
    ensures
        view_result(reg, code, q, view, as_of) == view_result(reg, code, p, view, as_of),
{
    let pl = p.log@;
    lemma_key_sorted_push(pl, change);
    let pl1 = pl.push(change);
    assert forall|j: int| 0 <= j < pl1.len() implies (#[trigger] pl1[j]).lamport < undo.lamport by {
        if j < pl.len() {
            assert(pl1[j] == pl[j]);
        }
    }
    lemma_key_sorted_push(pl1, undo);
    let log = key_sorted(pl);
    let ext = key_sorted(q.log@);
    assert(ext == log.push(change).push(undo));
    let n = log.len() as int;
    assert(ext.len() == n + 2);
    assert(ext[n] == change);
    assert(ext[n + 1] == undo);
    assert(extends(log, ext));
    let s = change.session;

    // The payloads of each session over the whole extended log.
    assert forall|t: SessionId| #[trigger] session_payloads(ext, t, as_of, n + 2) == if t == s && in_scope(
        change,
        as_of,
    ) {
        session_payloads(log, t, as_of, n).push(change.payload).push(LogPayload::Undo)
    } else {
        session_payloads(log, t, as_of, n)
    } by {
        lemma_session_payloads_prefix(log, ext, t, as_of, n);
        assert(session_payloads(ext, t, as_of, n + 1) == if t == s && in_scope(change, as_of) {
            session_payloads(log, t, as_of, n).push(change.payload)
        } else {
            session_payloads(log, t, as_of, n)
        });
    }

    // Each entry of the log keeps its activity.
    assert forall|i: int| 0 <= i < n implies entry_active(ext, i, as_of) == entry_active(log, i, as_of) by {
        let t = log[i].session;
        assert(ext[i] == log[i]);
        lemma_session_payloads_prefix(log, ext, t, as_of, i);
        lemma_session_payloads_prefix(log, ext, t, as_of, n);
        if t == s && in_scope(change, as_of) {
            lemma_change_then_undo(session_payloads(log, t, as_of, n), change.payload);
        }
    }
    // The change is not active any more.
    assert(!entry_active(ext, n, as_of)) by {
        lemma_session_payloads_prefix(log, ext, s, as_of, n);
        if in_scope(change, as_of) {
            lemma_change_then_undo(session_payloads(log, s, as_of, n), change.payload);
        }
    }

    // The live merges and the branches of the sessions stay.
    lemma_live_merges_prefix(log, ext, as_of, n);
    assert(live_merges(ext, as_of, n + 1) == live_merges(log, as_of, n));
    assert(live_merges(ext, as_of, n + 2) == live_merges(log, as_of, n));
    assert forall|t: SessionId| #[trigger] session_branch(ext, t, as_of, n + 2) == session_branch(log, t, as_of, n) by {
        lemma_session_branch_prefix(log, ext, t, as_of, n);
        assert(session_branch(ext, t, as_of, n + 1) == session_branch(log, t, as_of, n));
    }
    assert forall|i: int| 0 <= i < n implies entry_visible(ext, i, view, as_of) == entry_visible(log, i, view, as_of) by {
        assert(ext[i] == log[i]);
        assert(session_branch(ext, log[i].session, as_of, n + 2) == session_branch(log, log[i].session, as_of, n));
    }

    // So the replay goes the same way, and the two new entries change nothing.
    lemma_replay_prefix(reg, code, log, ext, view, as_of, p.user, n);
    assert(replay_log(reg, code, ext, view, as_of, p.user, n + 1) == replay_log(reg, code, log, view, as_of, p.user, n));
    assert(replay_log(reg, code, ext, view, as_of, p.user, n + 2) == replay_log(reg, code, log, view, as_of, p.user, n));
}

/// What a view of `p` from branch `view` as of `as_of` holds once the
/// changes of `change` are replayed after its log: the log replayed, then
/// the changes, for the viewing user when the change's session is theirs,
/// then the replica's session and shared sections laid over it.
pub open spec fn view_with_change<M: ModuleCode>(
    reg: Set<ModuleId>,
    code: M,
    p: Project,
    view: BranchId,
    as_of: u64,
    change: LogEntry,
) -> Result<ViewModel, ModuleId> {
    let log = key_sorted(p.log@);
    match replay_log(reg, code, log, view, as_of, p.user, log.len() as int) {
        Err(x) => Err(x),
        Ok((m, sessions)) => match change.payload {
            LogPayload::Changes(cs) => match changes_step(
                reg,
                code,
                m,
                cs@,
                user_of(sessions, change.session) == Some(p.user),
            ) {
                Err(x) => Err(x),
                Ok(m2) => with_kept_sections(reg, m2, p),
            },
            _ => with_kept_sections(reg, m, p),
        },
    }
}

/// A view reads what was written: when a session declared on branch
/// `view` logs changes after every entry of the log, the view from `view`,
/// at a time that takes the entry in, is the view before with those
/// changes replayed after the log ([`view_with_change`]).
pub proof fn lemma_logged_change_shows<M: ModuleCode>(
    reg: Set<ModuleId>,
    code: M,
    p: Project,
    q: Project,
    change: LogEntry,
    view: BranchId,
    as_of: u64,
)
    requires
        change.payload is Changes,
        forall|j: int| 0 <= j < p.log@.len() ==> (#[trigger] p.log@[j]).lamport < change.lamport,
        in_scope(change, as_of),
        session_branch(key_sorted(p.log@), change.session, as_of, p.log@.len() as int) == Some(view),
        q.log@ == p.log@.push(change),
        q.user == p.user,
        q.session_data == p.session_data,
        q.shared_data == p.shared_data,
    ensures
        view_result(reg, code, q, view, as_of) == view_with_change(reg, code, p, view, as_of, change),
{
    let pl = p.log@;
    lemma_key_sorted_push(pl, change);
    let log = key_sorted(pl);
    let ext = key_sorted(q.log@);
    lemma_key_sorted(pl);
    vstd::seq_lib::to_multiset_len(pl);
    vstd::seq_lib::to_multiset_len(log);
    assert(log.len() == pl.len());
    assert(ext == log.push(change));
    let n = log.len() as int;
    assert(ext[n] == change);
    assert(extends(log, ext));
    let s = change.session;

    // The payloads of each session over the whole extended log.
    assert forall|t: SessionId| #[trigger] session_payloads(ext, t, as_of, n + 1) == if t == s {
        session_payloads(log, t, as_of, n).push(change.payload)
    } else {
        session_payloads(log, t, as_of, n)
    } by {
        lemma_session_payloads_prefix(log, ext, t, as_of, n);
    }

    // Each entry of the log keeps its activity.
    assert forall|i: int| 0 <= i < n implies entry_active(ext, i, as_of) == entry_active(log, i, as_of) by {
        let t = log[i].session;
        assert(ext[i] == log[i]);
        lemma_session_payloads_prefix(log, ext, t, as_of, i);
        lemma_session_payloads_prefix(log, ext, t, as_of, n);
        if t == s && in_scope(log[i], as_of) {
            lemma_new_change_is_active(session_payloads(log, t, as_of, n), change.payload);
            lemma_rank_below(log, i, as_of, n);
        }
    }
    // The change is active.
    assert(entry_active(ext, n, as_of)) by {
        lemma_session_payloads_prefix(log, ext, s, as_of, n);
        lemma_new_change_is_active(session_payloads(log, s, as_of, n), change.payload);
    }

    // The live merges and the branches of the sessions stay.
    lemma_live_merges_prefix(log, ext, as_of, n);
    assert(live_merges(ext, as_of, n + 1) == live_merges(log, as_of, n));
    assert forall|t: SessionId| #[trigger] session_branch(ext, t, as_of, n + 1) == session_branch(log, t, as_of, n) by {
        lemma_session_branch_prefix(log, ext, t, as_of, n);
    }
    assert forall|i: int| 0 <= i < n implies entry_visible(ext, i, view, as_of) == entry_visible(log, i, view, as_of) by {
        assert(ext[i] == log[i]);
        assert(session_branch(ext, log[i].session, as_of, n + 1) == session_branch(log, log[i].session, as_of, n));
    }
    // The change is visible from its own branch.
    assert(entry_visible(ext, n, view, as_of)) by {
        assert(session_branch(ext, s, as_of, n + 1) == Some(view));
    }

    // So the replay goes the same way up to the change, which is replayed last.
    lemma_replay_prefix(reg, code, log, ext, view, as_of, p.user, n);
}

/// Applied changes show in the current view: when `p1` is `p0` after
/// [`Project::apply_changes`] succeeded in the session open in `p0`, which
/// was declared on `p0`'s branch, with the session and shared sections as
/// they were, the view of `p1` from that branch is that of `p0` with the
/// logged changes replayed after its log.
pub proof fn lemma_apply_then_view<M: ModuleCode>(reg: Set<ModuleId>, code: M, p0: Project, p1: Project)
    requires
        clock_ahead(p0),
        p0.session is Some,
        session_branch(key_sorted(p0.log@), p0.session->0, u64::MAX, p0.log@.len() as int) == Some(p0.branch),
        p1.session is Some,
        logged_in_session(p0, p1.log@, p1.lamport_clock, p1.session->0, 1),
        p1.log@.last().payload is Changes,
        same_replica(p0, p1),
        p1.session_data == p0.session_data,
        p1.shared_data == p0.shared_data,
    ensures
        view_result(reg, code, p1, p0.branch, u64::MAX) == view_with_change(
            reg,
            code,
            p0,
            p0.branch,
            u64::MAX,
            p1.log@.last(),
        ),
{
    let n = p0.log@.len() as int;
    let change = p1.log@[n];
    assert(p1.log@.subrange(0, n) == p0.log@);
    assert(p1.log@ =~= p0.log@.push(change));
    assert(p1.log@.last() == change);
    lemma_logged_change_shows(reg, code, p0, p1, change, p0.branch, u64::MAX);
}

/// Data of a registered module starts at the module's default: when a
/// session declared on branch `view` logs the creation of data `id` of a
/// registered module after every entry of the log, the view from `view`, at
/// a time that takes the entry in, holds data `id` of that module whose
/// persistent section is the default that the module's code states.
pub proof fn lemma_created_data_starts_at_default<M: ModuleCode>(
    reg: Set<ModuleId>,
    code: M,
    p: Project,
    q: Project,
    change: LogEntry,
    view: BranchId,
    as_of: u64,
    id: DataId,
    module: ModuleId,
    owner: Option<DocumentId>,
)
    requires
        reg.contains(module),
        change.payload matches LogPayload::Changes(cs) && cs@ == seq![Change::CreateData { id, module, owner }],
        forall|j: int| 0 <= j < p.log@.len() ==> (#[trigger] p.log@[j]).lamport < change.lamport,
        in_scope(change, as_of),
        session_branch(key_sorted(p.log@), change.session, as_of, p.log@.len() as int) == Some(view),
        q.log@ == p.log@.push(change),
        q.user == p.user,
        q.session_data == p.session_data,
        q.shared_data == p.shared_data,
    ensures
        view_result(reg, code, q, view, as_of) matches Ok(m) ==> {
            let k = first_pos(m.data, id);
            &&& k >= 0
            &&& m.data[k].1.module == module
            &&& m.data[k].1.persistent == fresh_model(code, module).persistent
        },
{
    lemma_logged_change_shows(reg, code, p, q, change, view, as_of);
    let log = key_sorted(p.log@);
    if let Ok((m, sessions)) = replay_log(reg, code, log, view, as_of, p.user, log.len() as int) {
        if let LogPayload::Changes(cs) = change.payload {
            let c = Change::CreateData { id, module, owner };
            let b = user_of(sessions, change.session) == Some(p.user);
            assert(cs@.drop_last() =~= Seq::<Change>::empty());
            assert(changes_step(reg, code, m, cs@.drop_last(), b) == Ok::<ViewModel, ModuleId>(m));
            assert(cs@.last() == c);
            assert(changes_step(reg, code, m, cs@, b) == change_step(reg, code, m, c, b));
            lemma_created_data_is_fresh(reg, code, m, id, module, owner, b);
            let m2 = change_step(reg, code, m, c, b)->Ok_0;
            assert(view_with_change(reg, code, p, view, as_of, change) == with_kept_sections(reg, m2, p));
            if view_result(reg, code, q, view, as_of) is Ok {
                let m3 = view_result(reg, code, q, view, as_of)->Ok_0;
                lemma_kept_sections_persistent(reg, m2, p);
                lemma_persistent_first_pos(m2.data, id);
                lemma_persistent_first_pos(m3.data, id);
                let k = first_pos(m2.data, id);
                assert(m3 == with_kept_sections(reg, m2, p)->Ok_0);
                assert(first_pos(m3.data, id) == k);
                lemma_first_pos(m2.data, id);
                assert(0 <= k < m2.data.len());
                assert(persistent_data(m3.data).len() == m3.data.len());
                assert(persistent_data(m3.data)[k] == persistent_data(m2.data)[k]);
                assert(persistent_data(m3.data)[k] == (m3.data[k].0, (m3.data[k].1.module, m3.data[k].1.persistent)));
                assert(persistent_data(m2.data)[k] == (m2.data[k].0, (m2.data[k].1.module, m2.data[k].1.persistent)));
            }
        }
    }
}

/// Undoing a change and redoing it in the same session gives back the
/// session's active entries as they were right after the change.
proof fn lemma_change_undo_redo(ps: Seq<LogPayload>, c: LogPayload)
    requires
        c is Changes,
    ensures
        active_positions(ps.push(c).push(LogPayload::Undo).push(LogPayload::Redo)) == active_positions(ps.push(c)),
{
    lemma_new_change_is_active(ps, c);
    lemma_undo_redo_wf(ps);
    assert(active_positions(ps.push(c)).contains(ps.len() as int));
    lemma_redo_reverts_undo(ps.push(c));
}

/// Redo brings an undone change back: when the last entry of a log is a
/// change, after every other entry, and its session then logs an undo and a
/// redo, the view from any branch, at a time that takes in all three or
/// none, is the view right after the change.
pub proof fn lemma_redo_restores_view<M: ModuleCode>(
    reg: Set<ModuleId>,
    code: M,
    p: Project,
    q: Project,
    undo: LogEntry,
    redo: LogEntry,
    view: BranchId,
    as_of: u64,
)
    requires
        p.log@.len() > 0,
        p.log@.last().payload is Changes,
        forall|j: int| 0 <= j < p.log@.len() - 1 ==> (#[trigger] p.log@[j]).lamport < p.log@.last().lamport,
        p.log@.last().lamport < undo.lamport,
        undo.lamport < redo.lamport,
        undo.payload == LogPayload::Undo,
        redo.payload == LogPayload::Redo,
        p.log@.last().session == undo.session,
        undo.session == redo.session,
        in_scope(p.log@.last(), as_of) == in_scope(undo, as_of),
        in_scope(undo, as_of) == in_scope(redo, as_of),
        q.log@ == p.log@.push(undo).push(redo),
        q.user == p.user,
        q.session_data == p.session_data,
        q.shared_data == p.shared_data,
    ensures
        view_result(reg, code, q, view, as_of) == view_result(reg, code, p, view, as_of),
{
    let pl = p.log@;
    let change = pl.last();
    let pl0 = pl.drop_last();
    assert(pl == pl0.push(change));
    assert forall|j: int| 0 <= j < pl0.len() implies (#[trigger] pl0[j]).lamport < change.lamport by {
        assert(pl0[j] == pl[j]);
    }
    lemma_key_sorted_push(pl0, change);
    assert forall|j: int| 0 <= j < pl.len() implies (#[trigger] pl[j]).lamport < undo.lamport by {
        if j < pl.len() - 1 {
            assert(pl[j] == pl0[j]);
        }
    }
    lemma_key_sorted_push(pl, undo);
    let pl2 = pl.push(undo);
    assert forall|j: int| 0 <= j < pl2.len() implies (#[trigger] pl2[j]).lamport < redo.lamport by {
        if j < pl.len() {
            assert(pl2[j] == pl[j]);
        }
    }
    lemma_key_sorted_push(pl2, redo);
    let log = key_sorted(pl);
    let ext = key_sorted(q.log@);
    assert(ext == log.push(undo).push(redo));
    let n = log.len() as int;
    assert(n > 0);
    assert(log[n - 1] == change);
    assert(ext[n] == undo);
    assert(ext[n + 1] == redo);
    assert(extends(log, ext));
    let s = change.session;

    assert forall|t: SessionId| #[trigger] session_payloads(ext, t, as_of, n + 2) == if t == s && in_scope(
        undo,
        as_of,
    ) {
        session_payloads(log, t, as_of, n).push(LogPayload::Undo).push(LogPayload::Redo)
    } else {
        session_payloads(log, t, as_of, n)
    } by {
        lemma_session_payloads_prefix(log, ext, t, as_of, n);
        assert(session_payloads(ext, t, as_of, n + 1) == if t == s && in_scope(undo, as_of) {
            session_payloads(log, t, as_of, n).push(LogPayload::Undo)
        } else {
            session_payloads(log, t, as_of, n)
        });
    }

    assert forall|i: int| 0 <= i < n implies entry_active(ext, i, as_of) == entry_active(log, i, as_of) by {
        let t = log[i].session;
        assert(ext[i] == log[i]);
        lemma_session_payloads_prefix(log, ext, t, as_of, i);
        lemma_session_payloads_prefix(log, ext, t, as_of, n);
        if t == s && in_scope(undo, as_of) {
            let ps0 = session_payloads(log, t, as_of, n - 1);
            assert(session_payloads(log, t, as_of, n) == ps0.push(change.payload));
            lemma_change_undo_redo(ps0, change.payload);
        }
    }

    lemma_live_merges_prefix(log, ext, as_of, n);
    assert(live_merges(ext, as_of, n + 1) == live_merges(log, as_of, n));
    assert(live_merges(ext, as_of, n + 2) == live_merges(log, as_of, n));
    assert forall|t: SessionId| #[trigger] session_branch(ext, t, as_of, n + 2) == session_branch(log, t, as_of, n) by {
        lemma_session_branch_prefix(log, ext, t, as_of, n);
        assert(session_branch(ext, t, as_of, n + 1) == session_branch(log, t, as_of, n));
    }
    assert forall|i: int| 0 <= i < n implies entry_visible(ext, i, view, as_of) == entry_visible(log, i, view, as_of) by {
        assert(ext[i] == log[i]);
        assert(session_branch(ext, log[i].session, as_of, n + 2) == session_branch(log, log[i].session, as_of, n));
    }

    lemma_replay_prefix(reg, code, log, ext, view, as_of, p.user, n);
    assert(replay_log(reg, code, ext, view, as_of, p.user, n + 1) == replay_log(reg, code, log, view, as_of, p.user, n));
    assert(replay_log(reg, code, ext, view, as_of, p.user, n + 2) == replay_log(reg, code, log, view, as_of, p.user, n));
}

/// Undo right after applying changes reverts them: when `p1` is `p0` after
/// [`Project::apply_changes`] succeeded in the session open in `p0`, without
/// session or shared transactions, and `p2` is `p1` after
/// [`Project::undo`], the current view of `p2` from any branch is that of `p0`.
pub proof fn lemma_apply_then_undo<M: ModuleCode>(reg: Set<ModuleId>, code: M, p0: Project, p1: Project, p2: Project, view: BranchId)
    requires
        clock_ahead(p0),
        p0.session is Some,
        p1.session is Some,
        logged_in_session(p0, p1.log@, p1.lamport_clock, p1.session->0, 1),
        p1.log@.last().payload is Changes,
        same_replica(p0, p1),
        p1.session_data == p0.session_data,
        p1.shared_data == p0.shared_data,
        p2.session is Some,
        logged_in_session(p1, p2.log@, p2.lamport_clock, p2.session->0, 1),
        p2.log@.last().payload == LogPayload::Undo,
        same_replica(p1, p2),
        p2.session_data == p1.session_data,
        p2.shared_data == p1.shared_data,
    ensures
        view_result(reg, code, p2, view, u64::MAX) == view_result(reg, code, p0, view, u64::MAX),
{
    let n = p0.log@.len() as int;
    let change = p1.log@[n];
    let undo = p2.log@[n + 1];
    assert(p1.log@.subrange(0, n) == p0.log@);
    assert(p2.log@.subrange(0, n + 1) == p1.log@);
    assert(p1.log@ =~= p0.log@.push(change));
    assert(p2.log@ =~= p1.log@.push(undo));
    assert(p1.log@.last() == change);
    lemma_undo_restores_view(reg, code, p0, p2, change, undo, view, u64::MAX);
}

/// An undo reaches only its own session: when a session logs an undo after
/// every entry of a (sorted) log, every entry of another session is exactly
/// as active as before.
pub proof fn lemma_undo_keeps_other_sessions(log: Seq<LogEntry>, undo: LogEntry, as_of: u64, i: int)
    requires
        undo.payload == LogPayload::Undo,
        0 <= i < log.len(),
        log[i].session != undo.session,
    ensures
        entry_active(log.push(undo), i, as_of) == entry_active(log, i, as_of),
{
    let ext = log.push(undo);
    let t = log[i].session;
    let n = log.len() as int;
    assert(extends(log, ext));
    assert(ext[i] == log[i]);
    lemma_session_payloads_prefix(log, ext, t, as_of, i);
    lemma_session_payloads_prefix(log, ext, t, as_of, n);
    assert(ext[n] == undo);
    assert(session_payloads(ext, t, as_of, n + 1) == session_payloads(log, t, as_of, n));
}

/// Entries with the same `(lamport, session)` key are the same entry.
pub open spec fn keys_identify(log: Seq<LogEntry>) -> bool {
    forall|i: int, j: int|
        0 <= i < log.len() && 0 <= j < log.len() && (#[trigger] log[i]).lamport == (#[trigger] log[j]).lamport
            && log[i].session == log[j].session ==> log[i] == log[j]
}

/// `s` is in `(lamport, session)` order.
pub open spec fn key_ordered(s: Seq<LogEntry>) -> bool {
    forall|i: int, j: int| 0 <= i < j < s.len() ==> !key_before(#[trigger] s[j], #[trigger] s[i])
}

/// Two sequences in key order, holding the same entries as often, where
/// equal keys mean equal entries, are the same sequence.
proof fn lemma_ordered_unique(s: Seq<LogEntry>, t: Seq<LogEntry>)
    requires
        key_ordered(s),
        key_ordered(t),
        s.to_multiset() == t.to_multiset(),
        keys_identify(s),
    ensures
        s == t,
    decreases s.len(),
{
    assert(s.len() == s.to_multiset().len());
    assert(t.len() == t.to_multiset().len());
    if s.len() == 0 {
        assert(t.len() == 0);
        assert(s =~= t);
    } else {
        let a = s[0];
        let b = t[0];
        assert(t.to_multiset().count(b) > 0);
        assert(s.contains(b));
        let k = choose|k: int| 0 <= k < s.len() && s[k] == b;
        assert(s.to_multiset().count(a) > 0);
        assert(t.contains(a));
        let m = choose|m: int| 0 <= m < t.len() && t[m] == a;
        if k > 0 {
            assert(!key_before(s[k], s[0]));
        }
        if m > 0 {
            assert(!key_before(t[m], t[0]));
        }
        assert(a.lamport == b.lamport && a.session.0 == b.session.0);
        assert(a.session == b.session);
        assert(a == s[k]);
        assert(a == b);
        let s1 = s.drop_first();
        let t1 = t.drop_first();
        assert(s.remove(0) == s1);
        assert(t.remove(0) == t1);
        vstd::seq_lib::to_multiset_remove(s, 0);
        vstd::seq_lib::to_multiset_remove(t, 0);
        assert forall|i: int, j: int| 0 <= i < j < s1.len() implies !key_before(#[trigger] s1[j], #[trigger] s1[i]) by {
            assert(s1[i] == s[i + 1] && s1[j] == s[j + 1]);
        }
        assert forall|i: int, j: int| 0 <= i < j < t1.len() implies !key_before(#[trigger] t1[j], #[trigger] t1[i]) by {
            assert(t1[i] == t[i + 1] && t1[j] == t[j + 1]);
        }
        assert forall|i: int, j: int|
            0 <= i < s1.len() && 0 <= j < s1.len() && (#[trigger] s1[i]).lamport == (#[trigger] s1[j]).lamport
                && s1[i].session == s1[j].session implies s1[i] == s1[j] by {
            assert(s1[i] == s[i + 1] && s1[j] == s[j + 1]);
        }
        lemma_ordered_unique(s1, t1);
        assert forall|i: int| 0 <= i < s.len() implies s[i] == t[i] by {
            if i > 0 {
                assert(s[i] == s1[i - 1] && t[i] == t1[i - 1]);
            }
        }
        assert(s =~= t);
    }
}

/// Replicas that hold the same entries see the same: when two replicas of
/// one user hold the same entries as often (in whatever order they came),
/// with equal keys meaning equal entries, and the same session and shared
/// sections, their views from any branch at any time are the same.
pub proof fn lemma_same_entries_same_view<M: ModuleCode>(reg: Set<ModuleId>, code: M, p: Project, q: Project, view: BranchId, as_of: u64)
    requires
        p.log@.to_multiset() == q.log@.to_multiset(),
        keys_identify(p.log@),
        p.user == q.user,
        p.session_data == q.session_data,
        p.shared_data == q.shared_data,
    ensures
        view_result(reg, code, p, view, as_of) == view_result(reg, code, q, view, as_of),
{
    let s = key_sorted(p.log@);
    let t = key_sorted(q.log@);
    lemma_key_sorted(p.log@);
    lemma_key_sorted(q.log@);
    assert forall|i: int, j: int|
        0 <= i < s.len() && 0 <= j < s.len() && (#[trigger] s[i]).lamport == (#[trigger] s[j]).lamport
            && s[i].session == s[j].session implies s[i] == s[j] by {
        assert(s.to_multiset().count(s[i]) > 0);
        assert(s.to_multiset().count(s[j]) > 0);
        assert(p.log@.contains(s[i]));
        assert(p.log@.contains(s[j]));
        let a = choose|a: int| 0 <= a < p.log@.len() && p.log@[a] == s[i];
        let b = choose|b: int| 0 <= b < p.log@.len() && p.log@[b] == s[j];
        assert(p.log@[a].lamport == p.log@[b].lamport);
    }
    lemma_ordered_unique(s, t);
}

/// Replicas that hold the same entries agree on what persists, whoever
/// views them and whatever session and shared sections they keep: when the
/// views of both from a branch at a time go through, they hold the same
/// documents, and the same data with the same modules and persistent
/// sections.
pub proof fn lemma_same_entries_same_persistent<M: ModuleCode>(
    reg: Set<ModuleId>,
    code: M,
    p: Project,
    q: Project,
    view: BranchId,
    as_of: u64,
)
    requires
        p.log@.to_multiset() == q.log@.to_multiset(),
        keys_identify(p.log@),
    ensures
        view_result(reg, code, p, view, as_of) is Ok && view_result(reg, code, q, view, as_of) is Ok
            ==> persistent_part(view_result(reg, code, p, view, as_of)->Ok_0) == persistent_part(
            view_result(reg, code, q, view, as_of)->Ok_0,
        ),
{
    let s = key_sorted(p.log@);
    let t = key_sorted(q.log@);
    lemma_key_sorted(p.log@);
    lemma_key_sorted(q.log@);
    assert forall|i: int, j: int|
        0 <= i < s.len() && 0 <= j < s.len() && (#[trigger] s[i]).lamport == (#[trigger] s[j]).lamport
            && s[i].session == s[j].session implies s[i] == s[j] by {
        assert(s.to_multiset().count(s[i]) > 0);
        assert(s.to_multiset().count(s[j]) > 0);
        assert(p.log@.contains(s[i]));
        assert(p.log@.contains(s[j]));
        let a = choose|a: int| 0 <= a < p.log@.len() && p.log@[a] == s[i];
        let b = choose|b: int| 0 <= b < p.log@.len() && p.log@[b] == s[j];
        assert(p.log@[a].lamport == p.log@[b].lamport);
    }
    lemma_ordered_unique(s, t);
    if view_result(reg, code, p, view, as_of) is Ok && view_result(reg, code, q, view, as_of) is Ok {
        let n = s.len() as int;
        lemma_replay_persistent(reg, code, s, view, as_of, p.user, q.user, n);
        let mp = replay_log(reg, code, s, view, as_of, p.user, n)->Ok_0.0;
        let mq = replay_log(reg, code, s, view, as_of, q.user, n)->Ok_0.0;
        lemma_kept_sections_persistent(reg, mp, p);
        lemma_kept_sections_persistent(reg, mq, q);
    }
}

/// Replicas that merged each other agree on what persists: under the
/// conditions of [`lemma_merges_agree`], whatever the users and the kept
/// session and shared sections of `p2` and `q2`, when their views from a
/// branch at a time go through, they hold the same documents, and the same
/// data with the same modules and persistent sections.
pub proof fn lemma_merged_replicas_persistent<M: ModuleCode>(
    reg: Set<ModuleId>,
    code: M,
    p: Project,
    q: Project,
    p2: Project,
    q2: Project,
    view: BranchId,
    as_of: u64,
)
    requires
        distinct_entry_keys(p.log@),
        distinct_entry_keys(q.log@),
        keys_agree(p.log@, q.log@),
        p2.log@ == p.log@ + fresh_entries(q.log@, log_keys(p.log@).to_set()),
        q2.log@ == q.log@ + fresh_entries(p.log@, log_keys(q.log@).to_set()),
    ensures
        view_result(reg, code, p2, view, as_of) is Ok && view_result(reg, code, q2, view, as_of) is Ok
            ==> persistent_part(view_result(reg, code, p2, view, as_of)->Ok_0) == persistent_part(
            view_result(reg, code, q2, view, as_of)->Ok_0,
        ),
{
    lemma_merges_agree(p.log@, q.log@);
    lemma_same_entries_same_persistent(reg, code, p2, q2, view, as_of);
}

/// No two entries of `log` share a `(lamport, session)` key.
pub open spec fn distinct_entry_keys(log: Seq<LogEntry>) -> bool {
    forall|i: int, j: int|
        0 <= i < j < log.len() ==> !((#[trigger] log[i]).lamport == (#[trigger] log[j]).lamport && log[i].session
            == log[j].session)
}

/// Entries of `a` and of `b` that share a key are the same entry.
pub open spec fn keys_agree(a: Seq<LogEntry>, b: Seq<LogEntry>) -> bool {
    forall|i: int, j: int|
        0 <= i < a.len() && 0 <= j < b.len() && (#[trigger] a[i]).lamport == (#[trigger] b[j]).lamport
            && a[i].session == b[j].session ==> a[i] == b[j]
}

proof fn lemma_log_keys_contains(log: Seq<LogEntry>, e: LogEntry)
    ensures
        log_keys(log).to_set().contains((e.lamport, e.session)) <==> exists|i: int|
            0 <= i < log.len() && (#[trigger] log[i]).lamport == e.lamport && log[i].session == e.session,
{
    let ks = log_keys(log);
    if ks.to_set().contains((e.lamport, e.session)) {
        assert(ks.contains((e.lamport, e.session)));
        let i = choose|i: int| 0 <= i < ks.len() && ks[i] == (e.lamport, e.session);
        assert(log[i].lamport == e.lamport && log[i].session == e.session);
    }
    if exists|i: int| 0 <= i < log.len() && (#[trigger] log[i]).lamport == e.lamport && log[i].session == e.session {
        let i = choose|i: int| 0 <= i < log.len() && (#[trigger] log[i]).lamport == e.lamport && log[i].session == e.session;
        assert(ks[i] == (e.lamport, e.session));
        assert(ks.contains((e.lamport, e.session)));
    }
}

proof fn lemma_fresh_entries_count(es: Seq<LogEntry>, have: Set<(u64, SessionId)>, e: LogEntry)
    ensures
        fresh_entries(es, have).to_multiset().count(e) == if have.contains((e.lamport, e.session)) {
            0
        } else {
            es.to_multiset().count(e)
        },
    decreases es.len(),
{
    broadcast use vstd::seq_lib::group_to_multiset_ensures;

    if es.len() == 0 {
        assert(es.to_multiset() =~= vstd::multiset::Multiset::empty());
        assert(fresh_entries(es, have).to_multiset() =~= vstd::multiset::Multiset::empty());
    } else {
        let init = es.drop_last();
        let l = es.last();
        lemma_fresh_entries_count(init, have, e);
        assert(es == init.push(l));
    }
}

proof fn lemma_fresh_entries_from(es: Seq<LogEntry>, have: Set<(u64, SessionId)>)
    ensures
        forall|i: int|
            0 <= i < fresh_entries(es, have).len() ==> es.contains(#[trigger] fresh_entries(es, have)[i]) && !have.contains(
                (fresh_entries(es, have)[i].lamport, fresh_entries(es, have)[i].session),
            ),
    decreases es.len(),
{
    if es.len() > 0 {
        let init = es.drop_last();
        lemma_fresh_entries_from(init, have);
        assert forall|i: int|
            0 <= i < fresh_entries(es, have).len() implies es.contains(#[trigger] fresh_entries(es, have)[i])
            && !have.contains((fresh_entries(es, have)[i].lamport, fresh_entries(es, have)[i].session)) by {
            let f = fresh_entries(init, have);
            if i < f.len() {
                assert(fresh_entries(es, have)[i] == f[i]);
                assert(init.contains(f[i]));
                let k = choose|k: int| 0 <= k < init.len() && init[k] == f[i];
                assert(es[k] == init[k]);
            } else {
                assert(fresh_entries(es, have)[i] == es.last());
                assert(es[es.len() - 1] == es.last());
            }
        }
    }
}

proof fn lemma_distinct_count(a: Seq<LogEntry>, i: int, e: LogEntry)
    requires
        distinct_entry_keys(a),
        0 <= i < a.len(),
        a[i].lamport == e.lamport,
        a[i].session == e.session,
    ensures
        a.to_multiset().count(e) == if e == a[i] {
            1nat
        } else {
            0nat
        },
{
    broadcast use vstd::seq_lib::group_to_multiset_ensures;

    assert(a.no_duplicates()) by {
        assert forall|x: int, y: int| 0 <= x < a.len() && 0 <= y < a.len() && x != y implies a[x] != a[y] by {
            if x < y {
                assert(!(a[x].lamport == a[y].lamport && a[x].session == a[y].session));
            } else {
                assert(!(a[y].lamport == a[x].lamport && a[y].session == a[x].session));
            }
        }
    }
    if e == a[i] {
        assert(a.contains(e));
        a.lemma_multiset_has_no_duplicates();
    } else if a.to_multiset().count(e) > 0 {
        assert(a.contains(e));
        let j = choose|j: int| 0 <= j < a.len() && a[j] == e;
        if j < i {
            assert(!(a[j].lamport == a[i].lamport && a[j].session == a[i].session));
        } else if i < j {
            assert(!(a[i].lamport == a[j].lamport && a[i].session == a[j].session));
        }
    }
}

proof fn lemma_count_without_key(a: Seq<LogEntry>, e: LogEntry)
    requires
        !log_keys(a).to_set().contains((e.lamport, e.session)),
    ensures
        a.to_multiset().count(e) == 0,
{
    broadcast use vstd::seq_lib::group_to_multiset_ensures;

    lemma_log_keys_contains(a, e);
    if a.to_multiset().count(e) > 0 {
        assert(a.contains(e));
        let j = choose|j: int| 0 <= j < a.len() && a[j] == e;
        assert(a[j].lamport == e.lamport && a[j].session == e.session);
    }
}

/// Two replicas that merge each other end up holding the same entries:
/// when the entries of each have distinct keys and entries of both with the
/// same key are the same entry, `a` with the new entries of `b` holds the
/// same entries, as often, as `b` with the new entries of `a`; and in it
/// equal keys mean equal entries.
pub proof fn lemma_merges_agree(a: Seq<LogEntry>, b: Seq<LogEntry>)
    requires
        distinct_entry_keys(a),
        distinct_entry_keys(b),
        keys_agree(a, b),
    ensures
        (a + fresh_entries(b, log_keys(a).to_set())).to_multiset() == (b + fresh_entries(
            a,
            log_keys(b).to_set(),
        )).to_multiset(),
        keys_identify(a + fresh_entries(b, log_keys(a).to_set())),
{
    let ka = log_keys(a).to_set();
    let kb = log_keys(b).to_set();
    let fa = fresh_entries(b, ka);
    let fb = fresh_entries(a, kb);
    vstd::seq_lib::lemma_multiset_commutative(a, fa);
    vstd::seq_lib::lemma_multiset_commutative(b, fb);
    assert forall|e: LogEntry| (a + fa).to_multiset().count(e) == (b + fb).to_multiset().count(e) by {
        lemma_fresh_entries_count(b, ka, e);
        lemma_fresh_entries_count(a, kb, e);
        lemma_log_keys_contains(a, e);
        lemma_log_keys_contains(b, e);
        let in_a = ka.contains((e.lamport, e.session));
        let in_b = kb.contains((e.lamport, e.session));
        if in_a && in_b {
            let i = choose|i: int| 0 <= i < a.len() && (#[trigger] a[i]).lamport == e.lamport && a[i].session == e.session;
            let j = choose|j: int| 0 <= j < b.len() && (#[trigger] b[j]).lamport == e.lamport && b[j].session == e.session;
            assert(a[i] == b[j]);
            lemma_distinct_count(a, i, e);
            lemma_distinct_count(b, j, e);
        } else if in_a {
            lemma_count_without_key(b, e);
        } else if in_b {
            lemma_count_without_key(a, e);
        } else {
            lemma_count_without_key(a, e);
            lemma_count_without_key(b, e);
        }
    }
    assert((a + fa).to_multiset() =~= (b + fb).to_multiset());
    lemma_fresh_entries_from(b, ka);
    let m = a + fa;
    assert forall|i: int, j: int|
        0 <= i < m.len() && 0 <= j < m.len() && (#[trigger] m[i]).lamport == (#[trigger] m[j]).lamport
            && m[i].session == m[j].session implies m[i] == m[j] by {
        if i < a.len() && j < a.len() {
            if i < j {
                assert(!(a[i].lamport == a[j].lamport && a[i].session == a[j].session));
            } else if j < i {
                assert(!(a[j].lamport == a[i].lamport && a[j].session == a[i].session));
            }
        } else if i >= a.len() && j >= a.len() {
            let x = fa[i - a.len()];
            let y = fa[j - a.len()];
            assert(m[i] == x && m[j] == y);
            assert(b.contains(x));
            assert(b.contains(y));
            let p = choose|p: int| 0 <= p < b.len() && b[p] == x;
            let q = choose|q: int| 0 <= q < b.len() && b[q] == y;
            if p < q {
                assert(!(b[p].lamport == b[q].lamport && b[p].session == b[q].session));
            } else if q < p {
                assert(!(b[q].lamport == b[p].lamport && b[q].session == b[p].session));
            }
        } else {
            let (x, k) = if i < a.len() {
                (fa[j - a.len()], i)
            } else {
                (fa[i - a.len()], j)
            };
            assert(!ka.contains((x.lamport, x.session)));
            assert(log_keys(a)[k] == (a[k].lamport, a[k].session));
            assert(log_keys(a).contains((a[k].lamport, a[k].session)));
        }
    }
}

/// Two replicas of one user that merged each other see the same: when `p2`
/// holds the log of `p` with the new entries of `q` (as
/// [`Project::merge_remote`] leaves it) and `q2` that of `q` with the new
/// entries of `p`, under the conditions of [`lemma_merges_agree`], and both
/// have the same user and session and shared sections, their views from any
/// branch at any time are the same.
pub proof fn lemma_merged_replicas_converge<M: ModuleCode>(
    reg: Set<ModuleId>,
    code: M,
    p: Project,
    q: Project,
    p2: Project,
    q2: Project,
    view: BranchId,
    as_of: u64,
)
    requires
        distinct_entry_keys(p.log@),
        distinct_entry_keys(q.log@),
        keys_agree(p.log@, q.log@),
        p2.log@ == p.log@ + fresh_entries(q.log@, log_keys(p.log@).to_set()),
        q2.log@ == q.log@ + fresh_entries(p.log@, log_keys(q.log@).to_set()),
        p2.user == q2.user,
        p2.session_data == q2.session_data,
        p2.shared_data == q2.shared_data,
    ensures
        view_result(reg, code, p2, view, as_of) == view_result(reg, code, q2, view, as_of),
{
    lemma_merges_agree(p.log@, q.log@);
    lemma_same_entries_same_view(reg, code, p2, q2, view, as_of);
}

/// A view of the past does not change: logging an entry later than every
/// entry of the log and later than `as_of` leaves the view as of `as_of`,
/// from any branch, as it was.
pub proof fn lemma_later_entry_keeps_view<M: ModuleCode>(
    reg: Set<ModuleId>,
    code: M,
    p: Project,
    q: Project,
    e: LogEntry,
    view: BranchId,
    as_of: u64,
)
    requires
        forall|j: int| 0 <= j < p.log@.len() ==> (#[trigger] p.log@[j]).lamport < e.lamport,
        !in_scope(e, as_of),
        q.log@ == p.log@.push(e),
        q.user == p.user,
        q.session_data == p.session_data,
        q.shared_data == p.shared_data,
    ensures
        view_result(reg, code, q, view, as_of) == view_result(reg, code, p, view, as_of),
{
    lemma_key_sorted_push(p.log@, e);
    let log = key_sorted(p.log@);
    let ext = key_sorted(q.log@);
    assert(ext == log.push(e));
    let n = log.len() as int;
    assert(ext[n] == e);
    assert(extends(log, ext));

    assert forall|t: SessionId| #[trigger] session_payloads(ext, t, as_of, n + 1) == session_payloads(
        log,
        t,
        as_of,
        n,
    ) by {
        lemma_session_payloads_prefix(log, ext, t, as_of, n);
    }
    assert forall|i: int| 0 <= i < n implies entry_active(ext, i, as_of) == entry_active(log, i, as_of) by {
        let t = log[i].session;
        assert(ext[i] == log[i]);
        lemma_session_payloads_prefix(log, ext, t, as_of, i);
    }
    lemma_live_merges_prefix(log, ext, as_of, n);
    assert(live_merges(ext, as_of, n + 1) == live_merges(log, as_of, n));
    assert forall|t: SessionId| #[trigger] session_branch(ext, t, as_of, n + 1) == session_branch(log, t, as_of, n) by {
        lemma_session_branch_prefix(log, ext, t, as_of, n);
    }
    assert forall|i: int| 0 <= i < n implies entry_visible(ext, i, view, as_of) == entry_visible(log, i, view, as_of) by {
        assert(ext[i] == log[i]);
        assert(session_branch(ext, log[i].session, as_of, n + 1) == session_branch(log, log[i].session, as_of, n));
    }
    lemma_replay_prefix(reg, code, log, ext, view, as_of, p.user, n);
    assert(replay_log(reg, code, ext, view, as_of, p.user, n + 1) == replay_log(reg, code, log, view, as_of, p.user, n));
}

/// Every live merge of the first `k` entries carries the lamport of one of them.
proof fn lemma_live_merges_lamports(log: Seq<LogEntry>, as_of: u64, k: int, bound: u64)
    requires
        0 <= k <= log.len(),
        forall|j: int| 0 <= j < log.len() ==> (#[trigger] log[j]).lamport < bound,
    ensures
        forall|i: int|
            0 <= i < live_merges(log, as_of, k).len() ==> (#[trigger] live_merges(log, as_of, k)[i]).2 < bound,
    decreases k,
{
    if k > 0 {
        lemma_live_merges_lamports(log, as_of, k - 1, bound);
        assert(log[k - 1].lamport < bound);
        let prev = live_merges(log, as_of, k - 1);
        let cur = live_merges(log, as_of, k);
        assert forall|i: int| 0 <= i < cur.len() implies (#[trigger] cur[i]).2 < bound by {
            if i < prev.len() {
                assert(cur[i] == prev[i]);
            }
        }
    }
}

/// An entry in scope counts among the payloads of its session: fewer of
/// them come before it than in all of the first `n` entries.
proof fn lemma_rank_below(log: Seq<LogEntry>, i: int, as_of: u64, n: int)
    requires
        0 <= i < n <= log.len(),
        in_scope(log[i], as_of),
    ensures
        session_payloads(log, log[i].session, as_of, i).len() < session_payloads(log, log[i].session, as_of, n).len(),
    decreases n,
{
    if n > i + 1 {
        lemma_rank_below(log, i, as_of, n - 1);
    }
}

/// An edit on another branch, made after every merge, stays out of sight:
/// when a session whose branch is not `view` logs a change after every entry
/// of the log, the view from `view` is as it was.
pub proof fn lemma_unmerged_edit_invisible<M: ModuleCode>(
    reg: Set<ModuleId>,
    code: M,
    p: Project,
    q: Project,
    change: LogEntry,
    view: BranchId,
    as_of: u64,
)
    requires
        change.payload is Changes,
        forall|j: int| 0 <= j < p.log@.len() ==> (#[trigger] p.log@[j]).lamport < change.lamport,
        session_branch(key_sorted(p.log@), change.session, as_of, p.log@.len() as int) matches Some(b) && b
            != view,
        q.log@ == p.log@.push(change),
        q.user == p.user,
        q.session_data == p.session_data,
        q.shared_data == p.shared_data,
    ensures
        view_result(reg, code, q, view, as_of) == view_result(reg, code, p, view, as_of),
{
    lemma_key_sorted_push(p.log@, change);
    lemma_key_sorted(p.log@);
    let log = key_sorted(p.log@);
    let ext = key_sorted(q.log@);
    assert(ext == log.push(change));
    let n = log.len() as int;
    assert(log.len() == log.to_multiset().len());
    assert(p.log@.len() == p.log@.to_multiset().len());
    assert(n == p.log@.len());
    assert(ext[n] == change);
    assert(extends(log, ext));
    let s = change.session;

    assert forall|t: SessionId| #[trigger] session_payloads(ext, t, as_of, n + 1) == if t == s && in_scope(
        change,
        as_of,
    ) {
        session_payloads(log, t, as_of, n).push(change.payload)
    } else {
        session_payloads(log, t, as_of, n)
    } by {
        lemma_session_payloads_prefix(log, ext, t, as_of, n);
    }
    assert forall|i: int| 0 <= i < n implies entry_active(ext, i, as_of) == entry_active(log, i, as_of) by {
        let t = log[i].session;
        assert(ext[i] == log[i]);
        lemma_session_payloads_prefix(log, ext, t, as_of, i);
        if t == s && in_scope(change, as_of) {
            let ps = session_payloads(log, t, as_of, n);
            lemma_new_change_is_active(ps, change.payload);
            lemma_undo_redo_wf(ps);
            if in_scope(log[i], as_of) {
                lemma_rank_below(log, i, as_of, n);
            }
        }
    }
    lemma_live_merges_prefix(log, ext, as_of, n);
    assert(live_merges(ext, as_of, n + 1) == live_merges(log, as_of, n));
    assert forall|t: SessionId| #[trigger] session_branch(ext, t, as_of, n + 1) == session_branch(log, t, as_of, n) by {
        lemma_session_branch_prefix(log, ext, t, as_of, n);
    }
    assert forall|i: int| 0 <= i < n implies entry_visible(ext, i, view, as_of) == entry_visible(log, i, view, as_of) by {
        assert(ext[i] == log[i]);
        assert(session_branch(ext, log[i].session, as_of, n + 1) == session_branch(log, log[i].session, as_of, n));
    }

    // The change is not visible: a chain of merges would need a merge after it.
    let merges = live_merges(log, as_of, n);
    assert forall|j: int| 0 <= j < log.len() implies (#[trigger] log[j]).lamport < change.lamport by {
        assert(log.to_multiset().count(log[j]) > 0);
        assert(p.log@.contains(log[j]));
        let a = choose|a: int| 0 <= a < p.log@.len() && p.log@[a] == log[j];
    }
    lemma_live_merges_lamports(log, as_of, n, change.lamport);
    let b = session_branch(log, s, as_of, n)->0;
    assert(!entry_visible(ext, n, view, as_of)) by {
        assert(session_branch(ext, s, as_of, n + 1) == Some(b));
        if op_visible(merges, change.lamport, b, view, as_of) {
            let chain = choose|chain: Seq<(BranchId, u64)>|
                chain.len() > 0 && chain.last().0 == b && #[trigger] is_merge_chain(
                    merges,
                    change.lamport,
                    view,
                    as_of,
                    chain,
                );
            assert(incoming(merges, hop_into(view, chain, 0)).contains(chain[0]));
            lemma_incoming(merges, hop_into(view, chain, 0), chain[0]);
            let i = choose|i: int|
                0 <= i < merges.len() && #[trigger] merges[i] == (hop_into(view, chain, 0), chain[0].0, chain[0].1);
            assert(merges[i].2 < change.lamport);
        }
    }

    lemma_replay_prefix(reg, code, log, ext, view, as_of, p.user, n);
    assert(replay_log(reg, code, ext, view, as_of, p.user, n + 1) == replay_log(reg, code, log, view, as_of, p.user, n));
}

} // verus!

//! Pure resolvers over the operation log: which entries of a session are
//! active after its undos and redos, and which operations a branch sees
//! through merges.

use vstd::prelude::*;
use std::collections::BTreeSet;
use crate::ids::BranchId;
use crate::oplog::{LogEntry, LogPayload};

verus! {

// ---------------------------------------------------------------------------
// Layer 1: undo / redo inside one session
// ---------------------------------------------------------------------------

/// Entries that undo can cancel: `Changes` and `MergeBranch`.
pub open spec fn is_undoable(p: LogPayload) -> bool {
    p is Changes || p is MergeBranch
}

/// Index of the last active entry strictly before `k`, or `-1`.
pub open spec fn last_active(active: Seq<bool>, k: int) -> int
    decreases k,
{
    if k <= 0 {
        -1
    } else if active[k - 1] {
        k - 1
    } else {
        last_active(active, k - 1)
    }
}

/// Undo/redo bookkeeping after one more entry: which entries are active,
/// and the stack of cancelled entries that a redo brings back.
pub open spec fn undo_redo_step(st: (Seq<bool>, Seq<int>), p: LogPayload) -> (Seq<bool>, Seq<int>) {
    let active = st.0;
    let redo = st.1;
    if is_undoable(p) {
        (active.push(true), redo)
    } else if p is Undo {
        let j = last_active(active, active.len() as int);
        if j >= 0 {
            (active.update(j, false).push(false), redo.push(j))
        } else {
            (active.push(false), redo)
        }
    } else if p is Redo {
        if redo.len() > 0 {
            (active.update(redo.last(), true).push(false), redo.drop_last())
        } else {
            (active.push(false), redo)
        }
    } else {
        (active.push(false), redo)
    }
}

/// Undo/redo bookkeeping after all of `ps`, starting from nothing.
pub open spec fn undo_redo_state(ps: Seq<LogPayload>) -> (Seq<bool>, Seq<int>)
    decreases ps.len(),
{
    if ps.len() == 0 {
        (seq![], seq![])
    } else {
        undo_redo_step(undo_redo_state(ps.drop_last()), ps.last())
    }
}

/// Positions of the entries of `ps` whose effect is active.
pub open spec fn active_positions(ps: Seq<LogPayload>) -> Set<int> {
    let active = undo_redo_state(ps).0;
    Set::new(|i: int| 0 <= i < active.len() && active[i])
}

/// The payloads of a sequence of entries.
pub open spec fn payloads(entries: Seq<&LogEntry>) -> Seq<LogPayload> {
    entries.map_values(|e: &LogEntry| e.payload)
}

/// The bookkeeping is well formed: one flag per entry, and the redo stack
/// only holds cancelled positions.
pub open spec fn undo_redo_wf(st: (Seq<bool>, Seq<int>)) -> bool {
    forall|k: int| 0 <= k < st.1.len() ==> 0 <= #[trigger] st.1[k] < st.0.len()
}

/// `last_active` finds the largest active position.
pub proof fn lemma_last_active(active: Seq<bool>, k: int)
    requires
        0 <= k <= active.len(),
    ensures
        last_active(active, k) < k,
        last_active(active, k) >= 0 ==> active[last_active(active, k)],
        forall|i: int| last_active(active, k) < i < k ==> !active[i],
    decreases k,
{
    if k > 0 {
        lemma_last_active(active, k - 1);
    }
}

/// The bookkeeping has one flag per entry and stays well formed.
pub proof fn lemma_undo_redo_wf(ps: Seq<LogPayload>)
    ensures
        undo_redo_state(ps).0.len() == ps.len(),
        undo_redo_wf(undo_redo_state(ps)),
    decreases ps.len(),
{
    if ps.len() > 0 {
        lemma_undo_redo_wf(ps.drop_last());
        let st = undo_redo_state(ps.drop_last());
        lemma_last_active(st.0, st.0.len() as int);
        let nst = undo_redo_state(ps);
        assert forall|k: int| 0 <= k < nst.1.len() implies 0 <= #[trigger] nst.1[k] < nst.0.len() by {
            if k < st.1.len() {
                assert(nst.1[k] == st.1[k]);
            }
        }
    }
}

/// An entry that undo can cancel is active as soon as it is logged.
pub proof fn lemma_new_change_is_active(ps: Seq<LogPayload>, p: LogPayload)
    requires
        is_undoable(p),
    ensures
        active_positions(ps.push(p)) == active_positions(ps).insert(ps.len() as int),
{
    lemma_undo_redo_wf(ps);
    assert(ps.push(p).drop_last() == ps);
    assert(active_positions(ps.push(p)) =~= active_positions(ps).insert(ps.len() as int));
}

/// Undo cancels exactly the most recent active entry of the session, and
/// does nothing when no entry is active.
pub proof fn lemma_undo_cancels_latest(ps: Seq<LogPayload>)
    ensures
        ({
            let j = last_active(undo_redo_state(ps).0, ps.len() as int);
            &&& j >= 0 ==> active_positions(ps).contains(j)
            &&& j >= 0 ==> forall|i: int| #[trigger] active_positions(ps).contains(i) ==> i <= j
            &&& j >= 0 ==> active_positions(ps.push(LogPayload::Undo)) == active_positions(ps).remove(j)
            &&& j < 0 ==> active_positions(ps) == Set::<int>::empty()
            &&& j < 0 ==> active_positions(ps.push(LogPayload::Undo)) == active_positions(ps)
        }),
{
    lemma_undo_redo_wf(ps);
    let st = undo_redo_state(ps);
    lemma_last_active(st.0, ps.len() as int);
    assert(ps.push(LogPayload::Undo).drop_last() == ps);
    let j = last_active(st.0, ps.len() as int);
    if j >= 0 {
        assert(active_positions(ps.push(LogPayload::Undo)) =~= active_positions(ps).remove(j));
    } else {
        assert(active_positions(ps) =~= Set::<int>::empty());
        assert(active_positions(ps.push(LogPayload::Undo)) =~= active_positions(ps));
    }
}

/// A redo right after an undo brings back what the undo cancelled: when the
/// session has an active entry, `Undo` followed by `Redo` leaves both the
/// active entries and the redo stack as they were.
pub proof fn lemma_redo_reverts_undo(ps: Seq<LogPayload>)
    requires
        active_positions(ps) != Set::<int>::empty(),
    ensures
        active_positions(ps.push(LogPayload::Undo).push(LogPayload::Redo)) == active_positions(ps),
        undo_redo_state(ps.push(LogPayload::Undo).push(LogPayload::Redo)).1 == undo_redo_state(ps).1,
{
    lemma_undo_redo_wf(ps);
    let st = undo_redo_state(ps);
    lemma_last_active(st.0, ps.len() as int);
    let j = last_active(st.0, ps.len() as int);
    if j < 0 {
        assert(active_positions(ps) =~= Set::<int>::empty());
    }
    let p1 = ps.push(LogPayload::Undo);
    let p2 = p1.push(LogPayload::Redo);
    assert(p1.drop_last() == ps);
    assert(p2.drop_last() == p1);
    let st1 = undo_redo_state(p1);
    assert(st1.1 == st.1.push(j));
    assert(st1.1.drop_last() == st.1);
    assert(active_positions(p2) =~= active_positions(ps));
}

/// Redo with nothing cancelled changes nothing.
pub proof fn lemma_redo_without_undo_is_noop(ps: Seq<LogPayload>)
    requires
        undo_redo_state(ps).1.len() == 0,
    ensures
        active_positions(ps.push(LogPayload::Redo)) == active_positions(ps),
{
    lemma_undo_redo_wf(ps);
    assert(ps.push(LogPayload::Redo).drop_last() == ps);
    assert(active_positions(ps.push(LogPayload::Redo)) =~= active_positions(ps));
}

/// Walks one session's entries (in log order) and returns the positions
/// whose effect is currently active.
///
/// `Changes` and `MergeBranch` become active; `Undo` cancels the most recent
/// active one and remembers it; `Redo` brings back the most recently
/// cancelled one. Other entries change nothing.
pub fn per_session_active_set(entries: &[&LogEntry]) -> (r: BTreeSet<usize>)
    ensures
        forall|j: usize| r@.contains(j) <==> active_positions(payloads(entries@)).contains(j as int),
{
    let ghost ps = payloads(entries@);
    let mut active: Vec<bool> = Vec::new();
    let mut redo_buf: Vec<usize> = Vec::new();
    let mut i: usize = 0;
    while i < entries.len()
        invariant
            i <= entries.len(),
            ps == payloads(entries@),
            active@ == undo_redo_state(ps.take(i as int)).0,
            redo_buf@.map_values(|x: usize| x as int) == undo_redo_state(ps.take(i as int)).1,
            active.len() == i,
        decreases entries.len() - i,
    {
        let ghost prev = ps.take(i as int);
        assert(ps.take(i + 1).drop_last() == prev);
        assert(ps.take(i + 1).last() == entries@[i as int].payload);
        proof {
            lemma_undo_redo_wf(prev);
        }
        match entries[i].payload {
            LogPayload::Changes(_) | LogPayload::MergeBranch { .. } => {
                active.push(true);
            },
            LogPayload::Undo => {
                proof {
                    lemma_last_active(active@, i as int);
                }
                let mut k: usize = i;
                while k > 0 && !active[k - 1]
                    invariant
                        k <= i,
                        active.len() == i,
                        last_active(active@, i as int) == last_active(active@, k as int),
                    decreases k,
                {
                    k -= 1;
                }
                if k > 0 {
                    let j = k - 1;
                    active.set(j, false);
                    redo_buf.push(j);
                    assert(redo_buf@.map_values(|x: usize| x as int) =~= undo_redo_state(prev).1.push(
                        j as int,
                    ));
                }
                active.push(false);
            },
            LogPayload::Redo => {
                if redo_buf.len() > 0 {
                    let j = redo_buf.pop().unwrap();
                    assert(redo_buf@.map_values(|x: usize| x as int) =~= undo_redo_state(prev).1.drop_last());
                    assert(undo_redo_state(prev).1.last() == j as int);
                    active.set(j, true);
                }
                active.push(false);
            },
            _ => {
                active.push(false);
            },
        }
        i += 1;
    }
    assert(ps.take(i as int) == ps);
    let mut r: BTreeSet<usize> = BTreeSet::new();
    let mut k: usize = 0;
    while k < active.len()
        invariant
            k <= active.len(),
            active@ == undo_redo_state(ps).0,
            forall|j: usize| r@.contains(j) <==> (j < k && active@[j as int]),
        decreases active.len() - k,
    {
        if active[k] {
            r.insert(k);
        }
        k += 1;
    }
    r
}

// ---------------------------------------------------------------------------
// Layer 2: visibility of operations across branches
// ---------------------------------------------------------------------------

/// The live `MergeBranch` entries of a log, as `(into, from, lamport)` in
/// log order. [`MergeIndex::incoming`] gives the merges into one branch.
#[derive(Debug, Clone)]
pub struct MergeIndex {
    pub merges: Vec<(BranchId, BranchId, u64)>,
}

/// The `(into, from, lamport)` of every `MergeBranch` entry, in order.
pub open spec fn merge_triples(live: Seq<&LogEntry>) -> Seq<(BranchId, BranchId, u64)>
    decreases live.len(),
{
    if live.len() == 0 {
        seq![]
    } else {
        let rest = merge_triples(live.drop_last());
        match live.last().payload {
            LogPayload::MergeBranch { from, into } => rest.push((into, from, live.last().lamport)),
            _ => rest,
        }
    }
}

/// The merges into `b`, as `(from, lamport)`, in the order of `merges`.
pub open spec fn incoming(merges: Seq<(BranchId, BranchId, u64)>, b: BranchId) -> Seq<(BranchId, u64)>
    decreases merges.len(),
{
    if merges.len() == 0 {
        seq![]
    } else {
        let rest = incoming(merges.drop_last(), b);
        if merges.last().0 == b {
            rest.push((merges.last().1, merges.last().2))
        } else {
            rest
        }
    }
}

impl MergeIndex {
    /// The merges into `b`, as `(from, lamport)`, in log order.
    pub open spec fn incoming(&self, b: BranchId) -> Seq<(BranchId, u64)> {
        incoming(self.merges@, b)
    }
}

/// Builds the `into -> [(from, merge_lamport)]` index of a slice of live
/// `MergeBranch` entries; other entries are skipped.
pub fn live_merges_index(live: &[&LogEntry]) -> (r: MergeIndex)
    ensures
        r.merges@ == merge_triples(live@),
{
    let mut merges: Vec<(BranchId, BranchId, u64)> = Vec::new();
    let mut i: usize = 0;
    while i < live.len()
        invariant
            i <= live.len(),
            merges@ == merge_triples(live@.take(i as int)),
        decreases live.len() - i,
    {
        assert(live@.take(i + 1).drop_last() == live@.take(i as int));
        let entry = live[i];
        if let LogPayload::MergeBranch { from, into } = entry.payload {
            merges.push((into, from, entry.lamport));
        }
        i += 1;
    }
    assert(live@.take(i as int) == live@);
    MergeIndex { merges }
}

/// The bound on the lamport of the first merge: `as_of + 1`, saturating at `u64::MAX`.
pub open spec fn initial_bound(as_of: u64) -> u64 {
    if as_of < u64::MAX {
        (as_of + 1) as u64
    } else {
        u64::MAX
    }
}

/// The branch that hop `t` of `chain` merges into.
pub open spec fn hop_into(view: BranchId, chain: Seq<(BranchId, u64)>, t: int) -> BranchId {
    if t == 0 {
        view
    } else {
        chain[t - 1].0
    }
}

/// The bound that the lamport of hop `t` of `chain` must stay below.
pub open spec fn hop_bound(as_of: u64, chain: Seq<(BranchId, u64)>, t: int) -> u64 {
    if t == 0 {
        initial_bound(as_of)
    } else {
        chain[t - 1].1
    }
}

/// `chain` is a path of merges `(from, lamport)` leading from `view` back in
/// time: each hop merged into the branch of the previous hop (the first into
/// `view`, no later than `as_of`), happened before the previous hop, and after
/// the operation at `op_lamport`.
pub open spec fn is_merge_chain(
    merges: Seq<(BranchId, BranchId, u64)>,
    op_lamport: u64,
    view: BranchId,
    as_of: u64,
    chain: Seq<(BranchId, u64)>,
) -> bool {
    forall|t: int|
        0 <= t < chain.len() ==> {
            &&& #[trigger] incoming(merges, hop_into(view, chain, t)).contains(chain[t])
            &&& op_lamport < chain[t].1
            &&& chain[t].1 < hop_bound(as_of, chain, t)
        }
}

/// An operation made on `op_branch` at `op_lamport` is visible from
/// `view_branch` at time `as_of`: it was made on that branch, or a chain of
/// merges imported it.
pub open spec fn op_visible(
    merges: Seq<(BranchId, BranchId, u64)>,
    op_lamport: u64,
    op_branch: BranchId,
    view_branch: BranchId,
    as_of: u64,
) -> bool {
    ||| op_branch == view_branch
    ||| exists|chain: Seq<(BranchId, u64)>|
        chain.len() > 0 && chain.last().0 == op_branch && #[trigger] is_merge_chain(
            merges,
            op_lamport,
            view_branch,
            as_of,
            chain,
        )
}

/// A merge `(from, m)` into `b` is in `incoming(merges, b)` exactly when
/// `(b, from, m)` is one of `merges`.
pub proof fn lemma_incoming(merges: Seq<(BranchId, BranchId, u64)>, b: BranchId, e: (BranchId, u64))
    ensures
        incoming(merges, b).contains(e) <==> exists|i: int|
            0 <= i < merges.len() && #[trigger] merges[i] == (b, e.0, e.1),
    decreases merges.len(),
{
    if merges.len() > 0 {
        let init = merges.drop_last();
        lemma_incoming(init, b, e);
        let rest = incoming(init, b);
        if exists|i: int| 0 <= i < merges.len() && #[trigger] merges[i] == (b, e.0, e.1) {
            let i = choose|i: int| 0 <= i < merges.len() && #[trigger] merges[i] == (b, e.0, e.1);
            if i < merges.len() - 1 {
                assert(init[i] == merges[i]);
                assert(rest.contains(e));
                if merges.last().0 == b {
                    assert(incoming(merges, b)[rest.len() as int] == (merges.last().1, merges.last().2));
                    let j = choose|j: int| 0 <= j < rest.len() && rest[j] == e;
                    assert(incoming(merges, b)[j] == e);
                }
            } else {
                assert(incoming(merges, b) == rest.push(e));
                assert(incoming(merges, b)[rest.len() as int] == e);
            }
        }
        if incoming(merges, b).contains(e) {
            if merges.last().0 == b && incoming(merges, b)[rest.len() as int] == e && !rest.contains(e) {
                assert(merges[merges.len() - 1] == (b, e.0, e.1));
            } else if merges.last().0 == b {
                let j = choose|j: int| 0 <= j < incoming(merges, b).len() && incoming(merges, b)[j] == e;
                if j < rest.len() {
                    assert(rest[j] == e);
                }
                if rest.contains(e) {
                    let i = choose|i: int| 0 <= i < init.len() && #[trigger] init[i] == (b, e.0, e.1);
                    assert(merges[i] == init[i]);
                }
            } else {
                let i = choose|i: int| 0 <= i < init.len() && #[trigger] init[i] == (b, e.0, e.1);
                assert(merges[i] == init[i]);
            }
        }
    }
}

/// The best (largest) bound recorded for `b` in an association list; `0` when absent.
/// The last entry for `b` counts.
pub open spec fn bound_of(best: Seq<(BranchId, u64)>, b: BranchId) -> u64
    decreases best.len(),
{
    if best.len() == 0 {
        0
    } else if best.last().0 == b {
        best.last().1
    } else {
        bound_of(best.drop_last(), b)
    }
}

/// Overwriting the last entry of `b` changes the bound of `b` only.
proof fn lemma_bound_update(best: Seq<(BranchId, u64)>, k: int, b: BranchId, m: u64, c: BranchId)
    requires
        0 <= k < best.len(),
        best[k].0 == b,
        forall|j: int| k < j < best.len() ==> best[j].0 != b,
    ensures
        bound_of(best.update(k, (b, m)), c) == if c == b {
            m
        } else {
            bound_of(best, c)
        },
    decreases best.len(),
{
    let nb = best.update(k, (b, m));
    if k == best.len() - 1 {
        assert(nb.drop_last() == best.drop_last());
    } else {
        assert(nb.drop_last() == best.drop_last().update(k, (b, m)));
        assert(nb.last() == best.last());
        lemma_bound_update(best.drop_last(), k, b, m, c);
    }
}

/// The bound of `b` is the value of its last entry.
proof fn lemma_bound_last(best: Seq<(BranchId, u64)>, k: int, b: BranchId)
    requires
        0 <= k < best.len(),
        best[k].0 == b,
        forall|j: int| k < j < best.len() ==> best[j].0 != b,
    ensures
        bound_of(best, b) == best[k].1,
    decreases best.len(),
{
    if k < best.len() - 1 {
        assert(best.drop_last()[k] == best[k]);
        lemma_bound_last(best.drop_last(), k, b);
    }
}

/// Without an entry for `b`, its bound is `0`.
proof fn lemma_bound_absent(best: Seq<(BranchId, u64)>, b: BranchId)
    requires
        forall|j: int| 0 <= j < best.len() ==> best[j].0 != b,
    ensures
        bound_of(best, b) == 0,
    decreases best.len(),
{
    if best.len() > 0 {
        lemma_bound_absent(best.drop_last(), b);
    }
}

/// The merges that can still raise a recorded bound.
pub open spec fn open_merges(merges: Seq<(BranchId, BranchId, u64)>, best: Seq<(BranchId, u64)>) -> Set<int> {
    Set::new(|i: int| 0 <= i < merges.len() && merges[i].2 > bound_of(best, merges[i].1))
}

/// There are finitely many open merges.
proof fn lemma_open_merges_finite(merges: Seq<(BranchId, BranchId, u64)>, best: Seq<(BranchId, u64)>)
    ensures
        open_merges(merges, best).finite(),
{
    vstd::set_lib::lemma_int_range(0, merges.len() as int);
    vstd::set_lib::lemma_len_subset(open_merges(merges, best), vstd::set_lib::set_int_range(0, merges.len() as int));
}

/// Raising bounds closes merges and never opens one; closing merge `i` makes
/// the set strictly smaller.
proof fn lemma_open_merges_shrink(
    merges: Seq<(BranchId, BranchId, u64)>,
    best: Seq<(BranchId, u64)>,
    nbest: Seq<(BranchId, u64)>,
    i: int,
)
    requires
        forall|b: BranchId| bound_of(nbest, b) >= bound_of(best, b),
        0 <= i < merges.len(),
        merges[i].2 > bound_of(best, merges[i].1),
        merges[i].2 <= bound_of(nbest, merges[i].1),
    ensures
        open_merges(merges, nbest).len() < open_merges(merges, best).len(),
{
    lemma_open_merges_finite(merges, best);
    let o = open_merges(merges, best);
    let n = open_merges(merges, nbest);
    assert(n.subset_of(o.remove(i)));
    vstd::set_lib::lemma_len_subset(n, o.remove(i));
}

/// Index of the last entry of `b` in `best`, if any.
fn find_last(best: &Vec<(BranchId, u64)>, b: BranchId) -> (r: Option<usize>)
    ensures
        match r {
            Some(k) => k < best.len() && best@[k as int].0 == b && forall|j: int|
                k < j < best.len() ==> best@[j].0 != b,
            None => forall|j: int| 0 <= j < best.len() ==> best@[j].0 != b,
        },
{
    let mut k = best.len();
    while k > 0
        invariant
            k <= best.len(),
            forall|j: int| k <= j < best.len() ==> best@[j].0 != b,
        decreases k,
    {
        if best[k - 1].0 == b {
            return Some(k - 1);
        }
        k -= 1;
    }
    None
}

/// A search state `(branch, bound)` can be reached from the view: it is the
/// starting state, or the end of a chain of merges.
pub open spec fn reachable(
    merges: Seq<(BranchId, BranchId, u64)>,
    op_lamport: u64,
    view: BranchId,
    as_of: u64,
    st: (BranchId, u64),
) -> bool {
    ||| st == (view, initial_bound(as_of))
    ||| exists|chain: Seq<(BranchId, u64)>|
        chain.len() > 0 && chain.last() == st && #[trigger] is_merge_chain(merges, op_lamport, view, as_of, chain)
}

/// Following merge `k` from a reachable state gives a chain ending in it.
proof fn lemma_chain_extends(
    merges: Seq<(BranchId, BranchId, u64)>,
    op_lamport: u64,
    view: BranchId,
    as_of: u64,
    st: (BranchId, u64),
    k: int,
)
    requires
        reachable(merges, op_lamport, view, as_of, st),
        0 <= k < merges.len(),
        merges[k].0 == st.0,
        merges[k].2 < st.1,
        op_lamport < merges[k].2,
    ensures
        exists|chain: Seq<(BranchId, u64)>|
            chain.len() > 0 && chain.last() == (merges[k].1, merges[k].2) && #[trigger] is_merge_chain(
                merges,
                op_lamport,
                view,
                as_of,
                chain,
            ),
        reachable(merges, op_lamport, view, as_of, (merges[k].1, merges[k].2)),
{
    let e = (merges[k].1, merges[k].2);
    lemma_incoming(merges, st.0, e);
    assert(merges[k] == (st.0, e.0, e.1));
    if st == (view, initial_bound(as_of)) {
        let chain = seq![e];
        assert(hop_into(view, chain, 0) == view);
        assert(is_merge_chain(merges, op_lamport, view, as_of, chain));
        assert(chain.last() == e);
    } else {
        let c = choose|chain: Seq<(BranchId, u64)>|
            chain.len() > 0 && chain.last() == st && #[trigger] is_merge_chain(merges, op_lamport, view, as_of, chain);
        let chain = c.push(e);
        assert forall|t: int| 0 <= t < chain.len() implies {
            &&& #[trigger] incoming(merges, hop_into(view, chain, t)).contains(chain[t])
            &&& op_lamport < chain[t].1
            &&& chain[t].1 < hop_bound(as_of, chain, t)
        } by {
            if t < c.len() {
                assert(chain[t] == c[t]);
                assert(hop_into(view, chain, t) == hop_into(view, c, t));
                assert(hop_bound(as_of, chain, t) == hop_bound(as_of, c, t));
                assert(incoming(merges, hop_into(view, c, t)).contains(c[t]));
            } else {
                assert(chain[t - 1] == st);
            }
        }
        assert(is_merge_chain(merges, op_lamport, view, as_of, chain));
        assert(chain.last() == e);
    }
}

/// When the search has processed every state it found, each hop of a chain
/// of merges starts at a processed state with at least the hop's bound.
proof fn lemma_chain_covered(
    merges: Seq<(BranchId, BranchId, u64)>,
    op_lamport: u64,
    op_branch: BranchId,
    view: BranchId,
    as_of: u64,
    frontier: Seq<(BranchId, u64)>,
    best: Seq<(BranchId, u64)>,
    chain: Seq<(BranchId, u64)>,
    t: int,
)
    requires
        frontier.len() >= 1,
        frontier[0] == (view, initial_bound(as_of)),
        forall|b: BranchId| bound_of(best, b) > 0 ==> exists|k: int|
            0 <= k < frontier.len() && #[trigger] frontier[k] == (b, bound_of(best, b)),
        forall|k: int, i: int|
            0 <= k < frontier.len() && 0 <= i < merges.len() && merges[i].0 == (#[trigger] frontier[k]).0
                && merges[i].2 < frontier[k].1 && op_lamport < (#[trigger] merges[i]).2 ==> merges[i].1
                != op_branch && bound_of(best, merges[i].1) >= merges[i].2,
        is_merge_chain(merges, op_lamport, view, as_of, chain),
        0 <= t < chain.len(),
    ensures
        exists|k: int|
            0 <= k < frontier.len() && (#[trigger] frontier[k]).0 == hop_into(view, chain, t) && frontier[k].1
                >= hop_bound(as_of, chain, t),
    decreases t,
{
    if t == 0 {
        assert(frontier[0].0 == hop_into(view, chain, 0));
    } else {
        lemma_chain_covered(merges, op_lamport, op_branch, view, as_of, frontier, best, chain, t - 1);
        let k = choose|k: int|
            0 <= k < frontier.len() && (#[trigger] frontier[k]).0 == hop_into(view, chain, t - 1) && frontier[k].1
                >= hop_bound(as_of, chain, t - 1);
        let e = chain[t - 1];
        assert(incoming(merges, hop_into(view, chain, t - 1)).contains(chain[t - 1]));
        lemma_incoming(merges, hop_into(view, chain, t - 1), e);
        let i = choose|i: int| 0 <= i < merges.len() && #[trigger] merges[i] == (hop_into(view, chain, t - 1), e.0, e.1);
        assert(merges[i].0 == frontier[k].0);
        assert(bound_of(best, merges[i].1) >= merges[i].2);
        assert(bound_of(best, e.0) > 0);
        let x = choose|x: int| 0 <= x < frontier.len() && #[trigger] frontier[x] == (e.0, bound_of(best, e.0));
        assert(frontier[x].0 == hop_into(view, chain, t));
    }
}

/// When the search ends without success, the operation is not visible.
proof fn lemma_no_chain(
    merges: Seq<(BranchId, BranchId, u64)>,
    op_lamport: u64,
    op_branch: BranchId,
    view: BranchId,
    as_of: u64,
    frontier: Seq<(BranchId, u64)>,
    best: Seq<(BranchId, u64)>,
)
    requires
        op_branch != view,
        frontier.len() >= 1,
        frontier[0] == (view, initial_bound(as_of)),
        forall|b: BranchId| bound_of(best, b) > 0 ==> exists|k: int|
            0 <= k < frontier.len() && #[trigger] frontier[k] == (b, bound_of(best, b)),
        forall|k: int, i: int|
            0 <= k < frontier.len() && 0 <= i < merges.len() && merges[i].0 == (#[trigger] frontier[k]).0
                && merges[i].2 < frontier[k].1 && op_lamport < (#[trigger] merges[i]).2 ==> merges[i].1
                != op_branch && bound_of(best, merges[i].1) >= merges[i].2,
    ensures
        !op_visible(merges, op_lamport, op_branch, view, as_of),
{
    if op_visible(merges, op_lamport, op_branch, view, as_of) {
        let chain = choose|chain: Seq<(BranchId, u64)>|
            chain.len() > 0 && chain.last().0 == op_branch && #[trigger] is_merge_chain(merges, op_lamport, view, as_of, chain);
        let t = chain.len() - 1;
        lemma_chain_covered(merges, op_lamport, op_branch, view, as_of, frontier, best, chain, t);
        let k = choose|k: int|
            0 <= k < frontier.len() && (#[trigger] frontier[k]).0 == hop_into(view, chain, t) && frontier[k].1
                >= hop_bound(as_of, chain, t);
        let e = chain[t];
        assert(incoming(merges, hop_into(view, chain, t)).contains(chain[t]));
        lemma_incoming(merges, hop_into(view, chain, t), e);
        let i = choose|i: int| 0 <= i < merges.len() && #[trigger] merges[i] == (hop_into(view, chain, t), e.0, e.1);
        assert(merges[i].0 == frontier[k].0);
        assert(merges[i].1 != op_branch);
    }
}

/// Returns true if the operation made on `op_branch` at `op_lamport` is
/// visible from `view_branch` at time `as_of`, given the index of live merges.
///
/// Searches backwards over merges, breadth first, starting from
/// `view_branch`; each branch is revisited only with a larger bound.
pub fn op_is_visible(
    op_lamport: u64,
    op_branch: BranchId,
    view_branch: BranchId,
    as_of: u64,
    live_merges_by_into: &MergeIndex,
) -> (r: bool)
    ensures
        r == op_visible(live_merges_by_into.merges@, op_lamport, op_branch, view_branch, as_of),
{
    if op_branch == view_branch {
        return true;
    }
    let merges = &live_merges_by_into.merges;
    let ghost ms = merges@;
    let initial = as_of.saturating_add(1);
    assert(initial == initial_bound(as_of));
    let mut frontier: Vec<(BranchId, u64)> = Vec::new();
    frontier.push((view_branch, initial));
    let mut best: Vec<(BranchId, u64)> = Vec::new();
    best.push((view_branch, initial));
    let mut head: usize = 0;
    proof {
        lemma_open_merges_finite(ms, best@);
        assert(best@.last() == (view_branch, initial));
        assert(frontier@[0] == (view_branch, initial));
        assert forall|b: BranchId| bound_of(best@, b) > 0 implies exists|k: int|
            0 <= k < frontier.len() && #[trigger] frontier@[k] == (b, bound_of(best@, b)) by {
            if b != view_branch {
                assert(best@.drop_last().len() == 0);
                assert(bound_of(best@.drop_last(), b) == 0);
                assert(bound_of(best@, b) == 0);
            } else {
                assert(frontier@[0] == (b, bound_of(best@, b)));
            }
        }
    }
    while head < frontier.len()
        invariant
            ms == merges@,
            ms == live_merges_by_into.merges@,
            op_branch != view_branch,
            initial == initial_bound(as_of),
            head <= frontier.len(),
            frontier.len() >= 1,
            frontier@[0] == (view_branch, initial),
            forall|k: int| 0 <= k < frontier.len() ==> #[trigger] reachable(ms, op_lamport, view_branch, as_of, frontier@[k]),
            forall|b: BranchId| bound_of(best@, b) > 0 ==> exists|k: int|
                0 <= k < frontier.len() && #[trigger] frontier@[k] == (b, bound_of(best@, b)),
            forall|k: int, i: int|
                0 <= k < head && 0 <= i < ms.len() && ms[i].0 == (#[trigger] frontier@[k]).0 && ms[i].2
                    < frontier@[k].1 && op_lamport < (#[trigger] ms[i]).2 ==> ms[i].1 != op_branch
                    && bound_of(best@, ms[i].1) >= ms[i].2,
        decreases open_merges(ms, best@).len(), frontier.len() - head,
    {
        proof {
            lemma_open_merges_finite(ms, best@);
        }
        let ghost open_before = open_merges(ms, best@).len();
        let ghost len_before = frontier.len();
        let (branch, upper) = frontier[head];
        let ghost state = frontier@[head as int];
        head += 1;
        let mut k: usize = 0;
        while k < merges.len()
            invariant
                ms == merges@,
                ms == live_merges_by_into.merges@,
                op_branch != view_branch,
                initial == initial_bound(as_of),
                1 <= head <= frontier.len(),
                frontier.len() >= len_before,
                frontier@[0] == (view_branch, initial),
                state == (branch, upper),
                frontier@[head - 1] == state,
                reachable(ms, op_lamport, view_branch, as_of, state),
                k <= ms.len(),
                forall|x: int| 0 <= x < frontier.len() ==> #[trigger] reachable(ms, op_lamport, view_branch, as_of, frontier@[x]),
                forall|b: BranchId| bound_of(best@, b) > 0 ==> exists|x: int|
                    0 <= x < frontier.len() && #[trigger] frontier@[x] == (b, bound_of(best@, b)),
                forall|x: int, i: int|
                    0 <= x < head - 1 && 0 <= i < ms.len() && ms[i].0 == (#[trigger] frontier@[x]).0 && ms[i].2
                        < frontier@[x].1 && op_lamport < (#[trigger] ms[i]).2 ==> ms[i].1 != op_branch
                        && bound_of(best@, ms[i].1) >= ms[i].2,
                forall|i: int|
                    0 <= i < k && (#[trigger] ms[i]).0 == branch && ms[i].2 < upper && op_lamport < ms[i].2
                        ==> ms[i].1 != op_branch && bound_of(best@, ms[i].1) >= ms[i].2,
                open_merges(ms, best@).finite(),
                open_merges(ms, best@).len() <= open_before,
                frontier.len() > len_before ==> open_merges(ms, best@).len() < open_before,
            decreases ms.len() - k,
        {
            let (into, from, m) = merges[k];
            if into == branch && m < upper && op_lamport < m {
                if from == op_branch {
                    proof {
                        assert(ms[k as int] == (into, from, m));
                        lemma_chain_extends(ms, op_lamport, view_branch, as_of, state, k as int);
                        let chain = choose|chain: Seq<(BranchId, u64)>|
                            chain.len() > 0 && chain.last() == (ms[k as int].1, ms[k as int].2) && #[trigger] is_merge_chain(
                                ms,
                                op_lamport,
                                view_branch,
                                as_of,
                                chain,
                            );
                        assert(chain.last().0 == op_branch);
                        assert(op_visible(ms, op_lamport, op_branch, view_branch, as_of));
                    }
                    return true;
                }
                let ghost old_best = best@;
                let found = find_last(&best, from);
                let prev: u64 = match found {
                    Some(x) => best[x].1,
                    None => 0,
                };
                proof {
                    match found {
                        Some(x) => lemma_bound_last(best@, x as int, from),
                        None => lemma_bound_absent(best@, from),
                    }
                }
                if m > prev {
                    match found {
                        Some(x) => {
                            best.set(x, (from, m));
                            proof {
                                assert forall|c: BranchId| bound_of(best@, c) == if c == from {
                                    m
                                } else {
                                    bound_of(old_best, c)
                                } by {
                                    lemma_bound_update(old_best, x as int, from, m, c);
                                }
                            }
                        },
                        None => {
                            best.push((from, m));
                            proof {
                                assert forall|c: BranchId| bound_of(best@, c) == if c == from {
                                    m
                                } else {
                                    bound_of(old_best, c)
                                } by {
                                    assert(best@.drop_last() == old_best);
                                }
                            }
                        },
                    }
                    let ghost old_frontier = frontier@;
                    frontier.push((from, m));
                    proof {
                        assert(frontier@[0] == old_frontier[0]);
                        assert(frontier@[head - 1] == old_frontier[head - 1]);
                        lemma_chain_extends(ms, op_lamport, view_branch, as_of, state, k as int);
                        lemma_open_merges_shrink(ms, old_best, best@, k as int);
                        lemma_open_merges_finite(ms, best@);
                        assert(frontier@[frontier.len() - 1] == (from, m));
                        assert forall|b: BranchId| bound_of(best@, b) > 0 implies exists|x: int|
                            0 <= x < frontier.len() && #[trigger] frontier@[x] == (b, bound_of(best@, b)) by {
                            if b == from {
                                assert(frontier@[frontier.len() - 1] == (b, bound_of(best@, b)));
                            } else {
                                assert(bound_of(old_best, b) > 0);
                                let x = choose|x: int| 0 <= x < old_frontier.len() && #[trigger] old_frontier[x] == (b, bound_of(old_best, b));
                                assert(frontier@[x] == old_frontier[x]);
                                assert(frontier@[x] == (b, bound_of(best@, b)));
                            }
                        }
                    }
                }
            }
            k += 1;
        }
    }
    proof {
        lemma_no_chain(ms, op_lamport, op_branch, view_branch, as_of, frontier@, best@);
    }
    false
}

/// Visibility only grows with time: what a branch sees at `as_of` it still
/// sees at any later `later`.
pub proof fn lemma_visibility_monotone(
    merges: Seq<(BranchId, BranchId, u64)>,
    op_lamport: u64,
    op_branch: BranchId,
    view_branch: BranchId,
    as_of: u64,
    later: u64,
)
    requires
        as_of <= later,
        op_visible(merges, op_lamport, op_branch, view_branch, as_of),
    ensures
        op_visible(merges, op_lamport, op_branch, view_branch, later),
{
    if op_branch != view_branch {
        let chain = choose|chain: Seq<(BranchId, u64)>|
            chain.len() > 0 && chain.last().0 == op_branch && #[trigger] is_merge_chain(
                merges,
                op_lamport,
                view_branch,
                as_of,
                chain,
            );
        assert forall|t: int| 0 <= t < chain.len() implies {
            &&& #[trigger] incoming(merges, hop_into(view_branch, chain, t)).contains(chain[t])
            &&& op_lamport < chain[t].1
            &&& chain[t].1 < hop_bound(later, chain, t)
        } by {
            assert(incoming(merges, hop_into(view_branch, chain, t)).contains(chain[t]));
        }
        assert(is_merge_chain(merges, op_lamport, view_branch, later, chain));
    }
}

} // verus!

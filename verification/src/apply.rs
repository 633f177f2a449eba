//! Applying recorded changes to a project, and the log entries that sessions,
//! undo, redo and merges of branches add.

use vstd::prelude::*;
use crate::ids::{BranchId, DataId, ModuleId, SessionId};
use crate::oplog::{Change, ErasedArgs, LogEntry, LogPayload, PendingChange};
use crate::project::{clock_ahead, ChangeBuilder, ModuleRegistry, Project};
use crate::replay::{first_pos, lemma_first_pos, ModuleCode};
use crate::view::{ErasedSection, Section};

verus! {

broadcast use vstd::seq_lib::group_seq_properties;

/// Errors of [`Project::apply_changes`].
#[derive(Debug, Clone, Copy, PartialEq, Eq)]
pub enum ApplyError {
    /// A transaction uses a module that the registry does not know.
    UnknownModule(ModuleId),
    /// A transaction's module differs from that of the section it targets.
    ModuleMismatch,
}

/// A stored section as the specification sees it: its module and its
/// encoded content.
#[verifier::ext_equal]
pub struct SectionModel {
    pub module: ModuleId,
    pub data: Seq<u8>,
}

/// The stored sections as the specification sees them.
pub open spec fn sections_model(store: Seq<(DataId, ErasedSection)>) -> Seq<(DataId, SectionModel)> {
    store.map_values(|p: (DataId, ErasedSection)| (p.0, SectionModel { module: p.1.module, data: p.1.data@ }))
}

/// The error that a transaction on the stored section `id` gives when it is
/// checked, if any: the section exists with another module, or the
/// registry lacks the module (whether the section exists or not).
pub open spec fn stored_check(
    reg: Set<ModuleId>,
    store: Seq<(DataId, SectionModel)>,
    id: DataId,
    args: ErasedArgs,
) -> Option<ApplyError> {
    let p = first_pos(store, id);
    if p >= 0 && store[p].1.module != args.module {
        Some(ApplyError::ModuleMismatch)
    } else if !reg.contains(args.module) {
        Some(ApplyError::UnknownModule(args.module))
    } else {
        None
    }
}

/// The first error that checking the pending changes `ps` gives, if any.
pub open spec fn pending_error(
    reg: Set<ModuleId>,
    session: Seq<(DataId, SectionModel)>,
    shared: Seq<(DataId, SectionModel)>,
    ps: Seq<PendingChange>,
) -> Option<ApplyError>
    decreases ps.len(),
{
    if ps.len() == 0 {
        None
    } else {
        match pending_error(reg, session, shared, ps.drop_last()) {
            Some(e) => Some(e),
            None => match ps.last() {
                PendingChange::SessionTransaction { id, args } => stored_check(reg, session, id, args),
                PendingChange::SharedTransaction { id, args } => stored_check(reg, shared, id, args),
                PendingChange::Change(_) => None,
            },
        }
    }
}

/// `ps` holds only changes to the log, no session or shared transaction.
pub open spec fn only_logged_changes(ps: Seq<PendingChange>) -> bool {
    forall|i: int| 0 <= i < ps.len() ==> #[trigger] ps[i] is Change
}

/// The changes among `ps` that go to the log, in order.
pub open spec fn logged_changes(ps: Seq<PendingChange>) -> Seq<Change>
    decreases ps.len(),
{
    if ps.len() == 0 {
        seq![]
    } else {
        match ps.last() {
            PendingChange::Change(c) => logged_changes(ps.drop_last()).push(c),
            _ => logged_changes(ps.drop_last()),
        }
    }
}

/// `store` after the transaction `args` on section `s` of the stored
/// section `id`: the section is first created, at the module's default,
/// when missing; it then holds what the module's code makes of its
/// content, or stays as it is when the code refuses the arguments.
pub open spec fn store_step<M: ModuleCode>(
    code: M,
    store: Seq<(DataId, SectionModel)>,
    id: DataId,
    args: ErasedArgs,
    s: Section,
) -> Seq<(DataId, SectionModel)> {
    let p = first_pos(store, id);
    let base = if p >= 0 {
        store
    } else {
        store.push((id, SectionModel { module: args.module, data: code.init_spec(args.module, s) }))
    };
    let q = if p >= 0 {
        p
    } else {
        store.len() as int
    };
    match code.apply_spec(args.module, s, base[q].1.data, args.data@) {
        Ok(v) => base.update(q, (id, SectionModel { module: base[q].1.module, data: v })),
        Err(_) => base,
    }
}

/// The session and shared stores after the transactions of `ps`, in order.
pub open spec fn stores_after<M: ModuleCode>(
    code: M,
    session: Seq<(DataId, SectionModel)>,
    shared: Seq<(DataId, SectionModel)>,
    ps: Seq<PendingChange>,
) -> (Seq<(DataId, SectionModel)>, Seq<(DataId, SectionModel)>)
    decreases ps.len(),
{
    if ps.len() == 0 {
        (session, shared)
    } else {
        let (se, sh) = stores_after(code, session, shared, ps.drop_last());
        match ps.last() {
            PendingChange::SessionTransaction { id, args } => (store_step(code, se, id, args, Section::Session), sh),
            PendingChange::SharedTransaction { id, args } => (se, store_step(code, sh, id, args, Section::Shared)),
            PendingChange::Change(_) => (se, sh),
        }
    }
}

/// `new_log` is `old_log` with one more entry carrying `lamport`, `session` and `payload`.
pub open spec fn appended(
    old_log: Seq<LogEntry>,
    new_log: Seq<LogEntry>,
    lamport: u64,
    session: SessionId,
    payload: LogPayload,
) -> bool {
    &&& new_log.len() == old_log.len() + 1
    &&& new_log.drop_last() == old_log
    &&& new_log.last().lamport == lamport
    &&& new_log.last().session == session
    &&& new_log.last().payload == payload
}

/// `new_log` and `new_clock` extend `old` by a `NewSession` entry of `s`
/// at the current lamport when no session was open (else `s` is the open
/// one), and then by `extra` entries of `s` at the following lamports.
pub open spec fn logged_in_session(old: Project, new_log: Seq<LogEntry>, new_clock: u64, s: SessionId, extra: int) -> bool {
    let n = old.log@.len() as int;
    let k: int = if old.session is None {
        1
    } else {
        0
    };
    &&& new_log.len() == n + k + extra
    &&& new_log.subrange(0, n) == old.log@
    &&& new_clock == old.lamport_clock + k + extra
    &&& match old.session {
        Some(s0) => s == s0,
        None => {
            &&& new_log[n].lamport == old.lamport_clock
            &&& new_log[n].session == s
            &&& new_log[n].payload == LogPayload::NewSession { user: old.user, branch: old.branch }
        },
    }
    &&& forall|j: int| n + k <= j < n + k + extra ==> (#[trigger] new_log[j]).lamport == old.lamport_clock + (j - n)
        && new_log[j].session == s
}

/// What stays of `old` in `new` when entries are logged.
pub open spec fn same_replica(old: Project, new: Project) -> bool {
    &&& new.uuid == old.uuid
    &&& new.user == old.user
    &&& new.branch == old.branch
}

/// The check of a transaction on the stored section `id`.
fn check_stored(reg: &ModuleRegistry, store: &Vec<(DataId, ErasedSection)>, id: DataId, args: &ErasedArgs) -> (r:
    Option<ApplyError>)
    ensures
        r == stored_check(reg@, sections_model(store@), id, *args),
{
    let ghost m = sections_model(store@);
    proof {
        lemma_first_pos(m, id);
    }
    let mut k: usize = 0;
    while k < store.len()
        invariant
            k <= store.len(),
            m == sections_model(store@),
            forall|j: int| 0 <= j < k ==> (#[trigger] store@[j]).0 != id,
        decreases store.len() - k,
    {
        if store[k].0 == id {
            assert(m[k as int].0 == id);
            assert forall|j: int| 0 <= j < k implies (#[trigger] m[j]).0 != id by {
                assert(m[j].0 == store@[j].0);
            }
            proof {
                lemma_first_pos(m, id);
            }
            if store[k].1.module != args.module {
                return Some(ApplyError::ModuleMismatch);
            }
            if !reg.contains(args.module) {
                return Some(ApplyError::UnknownModule(args.module));
            }
            return None;
        }
        k += 1;
    }
    assert forall|j: int| 0 <= j < m.len() implies (#[trigger] m[j]).0 != id by {
        assert(m[j].0 == store@[j].0);
    }
    if !reg.contains(args.module) {
        return Some(ApplyError::UnknownModule(args.module));
    }
    None
}

/// Position of the first stored section `id`.
fn stored_pos(store: &Vec<(DataId, ErasedSection)>, id: DataId) -> (r: Option<usize>)
    ensures
        match r {
            Some(i) => i < store.len() && first_pos(sections_model(store@), id) == i as int,
            None => first_pos(sections_model(store@), id) == -1,
        },
{
    let ghost m = sections_model(store@);
    let mut k: usize = 0;
    while k < store.len()
        invariant
            k <= store.len(),
            m == sections_model(store@),
            forall|j: int| 0 <= j < k ==> (#[trigger] store@[j]).0 != id,
        decreases store.len() - k,
    {
        if store[k].0 == id {
            assert(m[k as int].0 == id);
            assert forall|j: int| 0 <= j < k implies (#[trigger] m[j]).0 != id by {
                assert(m[j].0 == store@[j].0);
            }
            proof {
                lemma_first_pos(m, id);
            }
            return Some(k);
        }
        k += 1;
    }
    assert forall|j: int| 0 <= j < m.len() implies (#[trigger] m[j]).0 != id by {
        assert(m[j].0 == store@[j].0);
    }
    proof {
        lemma_first_pos(m, id);
    }
    None
}

/// Applies the transaction `args` to the stored section `id`, creating it
/// first, at the module's default, when missing. A transaction the module
/// refuses leaves the section as it was.
fn apply_stored<M: ModuleCode>(
    code: &M,
    store: &mut Vec<(DataId, ErasedSection)>,
    id: DataId,
    args: ErasedArgs,
    s: Section,
)
    ensures
        sections_model(final(store)@) == store_step(*code, sections_model(old(store)@), id, args, s),
{
    let ghost m = sections_model(store@);
    proof {
        lemma_first_pos(m, id);
    }
    let pos = match stored_pos(store, id) {
        Some(p) => p,
        None => {
            let fresh = code.init_section(args.module, s);
            store.push((id, ErasedSection { module: args.module, data: fresh }));
            assert(sections_model(store@) =~= m.push(
                (id, SectionModel { module: args.module, data: code.init_spec(args.module, s) }),
            ));
            store.len() - 1
        },
    };
    let ghost st = sections_model(store@);
    assert(st[pos as int] == (store@[pos as int].0, SectionModel {
        module: store@[pos as int].1.module,
        data: store@[pos as int].1.data@,
    }));
    let res = code.apply_transaction(args.module, s, &store[pos].1.data, &args.data);
    match res {
        Ok(v) => {
            let ghost before = store@;
            let (k, mut sec) = store.remove(pos);
            sec.data = v;
            store.insert(pos, (k, sec));
            assert(store@ =~= before.update(pos as int, (k, sec)));
            assert(sections_model(store@) =~= st.update(
                pos as int,
                (id, SectionModel { module: st[pos as int].1.module, data: sec.data@ }),
            ));
        },
        Err(_) => {},
    }
}

impl Project {
    /// Opens a session when none is open: a fresh one, declared by a
    /// `NewSession` entry for this replica's user and branch.
    fn open_session(&mut self) -> (s: SessionId)
        requires
            old(self).lamport_clock < u64::MAX,
        ensures
            final(self).session == Some(s),
            logged_in_session(*old(self), final(self).log@, final(self).lamport_clock, s, 0),
            clock_ahead(*old(self)) ==> clock_ahead(*final(self)),
            same_replica(*old(self), *final(self)),
            final(self).session_data == old(self).session_data,
            final(self).shared_data == old(self).shared_data,
    {
        match self.session {
            Some(s) => {
                assert(self.log@.subrange(0, self.log@.len() as int) == self.log@);
                s
            },
            None => {
                let s = SessionId::new();
                let entry = LogEntry {
                    lamport: self.lamport_clock,
                    session: s,
                    wall_clock: None,
                    payload: LogPayload::NewSession { user: self.user, branch: self.branch },
                };
                self.log.push(entry);
                self.lamport_clock = self.lamport_clock + 1;
                self.session = Some(s);
                assert(self.log@.subrange(0, old(self).log@.len() as int) == old(self).log@);
                s
            },
        }
    }

    /// Logs an entry of session `s` carrying `payload` at the current lamport.
    fn log_entry(&mut self, s: SessionId, payload: LogPayload)
        requires
            old(self).lamport_clock < u64::MAX,
        ensures
            appended(old(self).log@, final(self).log@, old(self).lamport_clock, s, payload),
            final(self).lamport_clock == old(self).lamport_clock + 1,
            clock_ahead(*old(self)) ==> clock_ahead(*final(self)),
            final(self).session == old(self).session,
            same_replica(*old(self), *final(self)),
            final(self).session_data == old(self).session_data,
            final(self).shared_data == old(self).shared_data,
    {
        let entry = LogEntry { lamport: self.lamport_clock, session: s, wall_clock: None, payload };
        self.log.push(entry);
        self.lamport_clock = self.lamport_clock + 1;
        assert(self.log@.drop_last() == old(self).log@);
    }
}

impl Project {
    /// Applies the changes recorded in `cb`.
    ///
    /// Opens a session when none is open. Then checks every session and
    /// shared transaction against the section it targets: the first one whose
    /// section exists with another module fails with `ModuleMismatch`, and the
    /// first whose module the registry lacks fails with `UnknownModule`;
    /// nothing else changes then. Otherwise applies the session and shared
    /// transactions to this replica's sections, in order, and logs the
    /// remaining changes as one `Changes` entry of the session.
    pub fn apply_changes<M: ModuleCode>(&mut self, cb: ChangeBuilder, reg: &ModuleRegistry, code: &M) -> (r:
        Result<(), ApplyError>)
        requires
            old(self).lamport_clock < u64::MAX - 1,
        ensures
            same_replica(*old(self), *final(self)),
            final(self).session is Some,
            clock_ahead(*old(self)) ==> clock_ahead(*final(self)),
            match pending_error(
                reg@,
                sections_model(old(self).session_data@),
                sections_model(old(self).shared_data@),
                cb.changes@,
            ) {
                Some(e) => {
                    &&& r == Err::<(), ApplyError>(e)
                    &&& logged_in_session(
                        *old(self),
                        final(self).log@,
                        final(self).lamport_clock,
                        final(self).session->0,
                        0,
                    )
                    &&& final(self).session_data == old(self).session_data
                    &&& final(self).shared_data == old(self).shared_data
                },
                None => {
                    &&& r is Ok
                    &&& logged_in_session(
                        *old(self),
                        final(self).log@,
                        final(self).lamport_clock,
                        final(self).session->0,
                        1,
                    )
                    &&& final(self).log@.last().payload matches LogPayload::Changes(cs) && cs@ == logged_changes(
                        cb.changes@,
                    )
                    &&& only_logged_changes(cb.changes@) ==> final(self).session_data == old(self).session_data
                        && final(self).shared_data == old(self).shared_data
                    &&& (sections_model(final(self).session_data@), sections_model(final(self).shared_data@))
                        == stores_after(
                        *code,
                        sections_model(old(self).session_data@),
                        sections_model(old(self).shared_data@),
                        cb.changes@,
                    )
                },
            },
    {
        let s = self.open_session();
        let ghost opened = *self;
        let ghost se0 = sections_model(self.session_data@);
        let ghost sh0 = sections_model(self.shared_data@);
        let ghost ps = cb.changes@;
        let mut k: usize = 0;
        while k < cb.changes.len()
            invariant
                k <= cb.changes.len(),
                ps == cb.changes@,
                *self == opened,
                opened.session == Some(s),
                same_replica(*old(self), opened),
                logged_in_session(*old(self), opened.log@, opened.lamport_clock, s, 0),
                opened.session_data == old(self).session_data,
                opened.shared_data == old(self).shared_data,
                clock_ahead(*old(self)) ==> clock_ahead(opened),
                se0 == sections_model(self.session_data@),
                sh0 == sections_model(self.shared_data@),
                pending_error(reg@, se0, sh0, ps.take(k as int)) is None,
            decreases cb.changes.len() - k,
        {
            assert(ps.take(k + 1).drop_last() == ps.take(k as int));
            assert(ps.take(k + 1).last() == ps[k as int]);
            let found = match &cb.changes[k] {
                PendingChange::SessionTransaction { id, args } => check_stored(reg, &self.session_data, *id, args),
                PendingChange::SharedTransaction { id, args } => check_stored(reg, &self.shared_data, *id, args),
                PendingChange::Change(_) => None,
            };
            if let Some(e) = found {
                proof {
                    lemma_pending_error_stops(reg@, se0, sh0, ps, k + 1);
                }
                return Err(e);
            }
            k += 1;
        }
        assert(ps.take(k as int) == ps);

        let mut pending = cb.changes;
        let total = pending.len();
        let mut changes: Vec<Change> = Vec::new();
        let mut done: usize = 0;
        assert(ps.take(0) =~= seq![]);
        assert(ps.skip(0) == ps);
        while pending.len() > 0
            invariant
                done <= ps.len(),
                ps.len() == total,
                pending@ == ps.skip(done as int),
                changes@ == logged_changes(ps.take(done as int)),
                (sections_model(self.session_data@), sections_model(self.shared_data@)) == stores_after(
                    *code,
                    se0,
                    sh0,
                    ps.take(done as int),
                ),
                self.log@ == opened.log@,
                self.lamport_clock == opened.lamport_clock,
                self.session == opened.session,
                same_replica(opened, *self),
                only_logged_changes(ps) ==> self.session_data == opened.session_data && self.shared_data
                    == opened.shared_data,
            decreases pending.len(),
        {
            let ghost rest = pending@;
            assert(rest[0] == ps[done as int]);
            assert(only_logged_changes(ps) ==> ps[done as int] is Change);
            assert(ps.take(done + 1).drop_last() == ps.take(done as int));
            assert(ps.take(done + 1).last() == ps[done as int]);
            let pc = pending.remove(0);
            assert(pending@ =~= ps.skip(done + 1));
            match pc {
                PendingChange::Change(c) => {
                    changes.push(c);
                },
                PendingChange::SessionTransaction { id, args } => {
                    apply_stored(code, &mut self.session_data, id, args, Section::Session);
                },
                PendingChange::SharedTransaction { id, args } => {
                    apply_stored(code, &mut self.shared_data, id, args, Section::Shared);
                },
            }
            done += 1;
        }
        assert(ps.skip(done as int).len() == 0);
        assert(ps.take(done as int) == ps);
        let ghost changes_view = changes@;
        self.log_entry(s, LogPayload::Changes(std::sync::Arc::new(changes)));
        assert(self.log@.subrange(0, old(self).log@.len() as int) =~= old(self).log@);
        Ok(())
    }

    /// Logs an undo in the current session (opening one when none is open):
    /// the session's most recent active change or merge stops counting.
    pub fn undo(&mut self)
        requires
            old(self).lamport_clock < u64::MAX - 1,
        ensures
            same_replica(*old(self), *final(self)),
            final(self).session is Some,
            clock_ahead(*old(self)) ==> clock_ahead(*final(self)),
            logged_in_session(*old(self), final(self).log@, final(self).lamport_clock, final(self).session->0, 1),
            final(self).log@.last().payload == LogPayload::Undo,
            final(self).session_data == old(self).session_data,
            final(self).shared_data == old(self).shared_data,
    {
        let s = self.open_session();
        self.log_entry(s, LogPayload::Undo);
        assert(self.log@.subrange(0, old(self).log@.len() as int) =~= old(self).log@);
    }

    /// Logs a redo in the current session (opening one when none is open):
    /// the session's most recently undone entry counts again.
    pub fn redo(&mut self)
        requires
            old(self).lamport_clock < u64::MAX - 1,
        ensures
            same_replica(*old(self), *final(self)),
            final(self).session is Some,
            clock_ahead(*old(self)) ==> clock_ahead(*final(self)),
            logged_in_session(*old(self), final(self).log@, final(self).lamport_clock, final(self).session->0, 1),
            final(self).log@.last().payload == LogPayload::Redo,
            final(self).session_data == old(self).session_data,
            final(self).shared_data == old(self).shared_data,
    {
        let s = self.open_session();
        self.log_entry(s, LogPayload::Redo);
        assert(self.log@.subrange(0, old(self).log@.len() as int) =~= old(self).log@);
    }

    /// Logs, in the current session, a one-time import of the state of
    /// branch `from` into branch `into`.
    pub fn merge_branch(&mut self, from: BranchId, into: BranchId)
        requires
            old(self).lamport_clock < u64::MAX - 1,
        ensures
            same_replica(*old(self), *final(self)),
            final(self).session is Some,
            clock_ahead(*old(self)) ==> clock_ahead(*final(self)),
            logged_in_session(*old(self), final(self).log@, final(self).lamport_clock, final(self).session->0, 1),
            final(self).log@.last().payload == (LogPayload::MergeBranch { from, into }),
            final(self).session_data == old(self).session_data,
            final(self).shared_data == old(self).shared_data,
    {
        let s = self.open_session();
        self.log_entry(s, LogPayload::MergeBranch { from, into });
        assert(self.log@.subrange(0, old(self).log@.len() as int) =~= old(self).log@);
    }

    /// Ends the current session: the next change opens a new one, which undo
    /// and redo then keep to.
    pub fn reset_session(&mut self)
        ensures
            final(self).session is None,
            same_replica(*old(self), *final(self)),
            final(self).log == old(self).log,
            final(self).lamport_clock == old(self).lamport_clock,
    {
        self.session = None;
    }

    /// Makes this replica represent branch `branch`; a session belongs to
    /// one branch, so the current one ends.
    pub fn switch_branch(&mut self, branch: BranchId)
        ensures
            final(self).branch == branch,
            final(self).session is None,
            final(self).uuid == old(self).uuid,
            final(self).user == old(self).user,
            final(self).log == old(self).log,
            final(self).lamport_clock == old(self).lamport_clock,
    {
        self.branch = branch;
        self.session = None;
    }

    /// The branch this replica represents.
    pub fn current_branch(&self) -> (r: BranchId)
        ensures
            r == self.branch,
    {
        self.branch
    }

    /// The session new changes are logged in, if one is open.
    pub fn current_session(&self) -> (r: Option<SessionId>)
        ensures
            r == self.session,
    {
        self.session
    }
}

/// Once checking a prefix of `ps` fails, checking all of `ps` fails the same way.
proof fn lemma_pending_error_stops(
    reg: Set<ModuleId>,
    session: Seq<(DataId, SectionModel)>,
    shared: Seq<(DataId, SectionModel)>,
    ps: Seq<PendingChange>,
    k: int,
)
    requires
        0 <= k <= ps.len(),
        pending_error(reg, session, shared, ps.take(k)) is Some,
    ensures
        pending_error(reg, session, shared, ps) == pending_error(reg, session, shared, ps.take(k)),
    decreases ps.len() - k,
{
    if k < ps.len() {
        assert(ps.take(k + 1).drop_last() == ps.take(k));
        lemma_pending_error_stops(reg, session, shared, ps, k + 1);
    } else {
        assert(ps.take(k) == ps);
    }
}

} // verus!

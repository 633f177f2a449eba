//! The project: its identity, its operation log, merging of replicas, the
//! registry of known modules and the builder that records changes.

use vstd::prelude::*;
use crate::ids::{is_random_uuid, BranchId, DataId, ModuleId, SessionId, UserId};
use crate::view::ErasedSection;
use crate::oplog::{Change, LogEntry, LogPayload, PendingChange};

verus! {

broadcast use vstd::seq_lib::group_seq_properties;

// ---------------------------------------------------------------------------
// Module registry
// ---------------------------------------------------------------------------

/// Errors of applying module code to type-erased data.
#[derive(Debug, Clone, Copy, PartialEq, Eq)]
pub enum ModuleRegistryError {
    /// The data does not belong to the expected module.
    DataDowncastError,
    /// The transaction arguments do not belong to the expected module.
    ArgsDowncastError,
}

/// The set of modules whose data a project may hold.
#[derive(Debug)]
pub struct ModuleRegistry {
    modules: Vec<ModuleId>,
}

impl View for ModuleRegistry {
    type V = Set<ModuleId>;

    closed spec fn view(&self) -> Set<ModuleId> {
        self.modules@.to_set()
    }
}

impl ModuleRegistry {
    /// An empty registry.
    pub fn new() -> (r: ModuleRegistry)
        ensures
            r@ == Set::<ModuleId>::empty(),
    {
        let r = ModuleRegistry { modules: Vec::new() };
        assert(r.modules@.to_set() =~= Set::<ModuleId>::empty());
        r
    }

    /// Makes `module` known to the registry.
    pub fn register(&mut self, module: ModuleId)
        ensures
            final(self)@ == old(self)@.insert(module),
    {
        self.modules.push(module);
        proof {
            old(self).modules@.lemma_push_to_set_commute(module);
        }
    }

    /// Whether `module` is known to the registry.
    pub fn contains(&self, module: ModuleId) -> (r: bool)
        ensures
            r == self@.contains(module),
    {
        let mut i: usize = 0;
        while i < self.modules.len()
            invariant
                i <= self.modules.len(),
                forall|k: int| 0 <= k < i ==> self.modules@[k] != module,
            decreases self.modules.len() - i,
        {
            if self.modules[i] == module {
                assert(self.modules@.contains(module));
                return true;
            }
            i += 1;
        }
        assert(!self.modules@.contains(module));
        false
    }
}

// ---------------------------------------------------------------------------
// Change builder
// ---------------------------------------------------------------------------

/// Records changes to be applied to a [`Project`] together.
#[derive(Debug, Clone)]
pub struct ChangeBuilder {
    pub changes: Vec<PendingChange>,
}

impl ChangeBuilder {
    /// An empty builder.
    pub fn new() -> (r: ChangeBuilder)
        ensures
            r.changes@ == Seq::<PendingChange>::empty(),
    {
        ChangeBuilder { changes: Vec::new() }
    }

    /// Appends all changes of `other`, so that both are applied (and undone) together.
    pub fn append(&mut self, other: ChangeBuilder)
        ensures
            final(self).changes@ == old(self).changes@ + other.changes@,
    {
        let mut other = other;
        self.changes.append(&mut other.changes);
    }
}

impl Default for ChangeBuilder {
    /// An empty builder.
    fn default() -> (r: ChangeBuilder)
        ensures
            r.changes@ == Seq::<PendingChange>::empty(),
    {
        ChangeBuilder::new()
    }
}

// ---------------------------------------------------------------------------
// Project and merging of replicas
// ---------------------------------------------------------------------------

/// A project: its identity and the log of everything that happened to it.
#[derive(Debug)]
pub struct Project {
    /// Identifies the project across all its replicas.
    pub uuid: u128,
    /// The user owning this replica.
    pub user: UserId,
    /// Session used for new changes, if one was started.
    pub session: Option<SessionId>,
    /// The branch this replica represents.
    pub branch: BranchId,
    /// Lamport clock: larger than the lamport of every entry seen so far.
    pub lamport_clock: u64,
    /// All entries, in the order they were received.
    pub log: Vec<LogEntry>,
    /// Session sections of the data, kept by this replica only.
    pub session_data: Vec<(DataId, ErasedSection)>,
    /// Shared sections of the data, kept by this replica only.
    pub shared_data: Vec<(DataId, ErasedSection)>,
}

/// Errors of [`Project::merge_remote`].
#[derive(Debug, Clone, Copy, PartialEq, Eq)]
pub enum MergeError {
    /// The two replicas belong to different projects.
    DifferentProject,
    /// The remote log uses a module that the registry does not know.
    UnknownModule(ModuleId),
}

/// The module a change refers to, if any.
pub open spec fn change_module(c: Change) -> Option<ModuleId> {
    match c {
        Change::CreateData { module, .. } => Some(module),
        Change::Transaction { args, .. } => Some(args.module),
        Change::UserTransaction { args, .. } => Some(args.module),
        _ => None,
    }
}

/// The first module, in order, that a change of `cs` refers to and `reg` lacks.
pub open spec fn first_unknown_module(cs: Seq<Change>, reg: Set<ModuleId>) -> Option<ModuleId>
    decreases cs.len(),
{
    if cs.len() == 0 {
        None
    } else {
        match change_module(cs[0]) {
            Some(m) => if !reg.contains(m) {
                Some(m)
            } else {
                first_unknown_module(cs.skip(1), reg)
            },
            None => first_unknown_module(cs.skip(1), reg),
        }
    }
}

/// The first unknown module that an entry refers to.
pub open spec fn entry_unknown_module(e: LogEntry, reg: Set<ModuleId>) -> Option<ModuleId> {
    match e.payload {
        LogPayload::Changes(cs) => first_unknown_module(cs@, reg),
        _ => None,
    }
}

/// The first unknown module that the entries of `log` refer to, in order.
pub open spec fn log_unknown_module(log: Seq<LogEntry>, reg: Set<ModuleId>) -> Option<ModuleId>
    decreases log.len(),
{
    if log.len() == 0 {
        None
    } else {
        match entry_unknown_module(log[0], reg) {
            Some(m) => Some(m),
            None => log_unknown_module(log.skip(1), reg),
        }
    }
}

/// The `(lamport, session)` key of every entry.
pub open spec fn log_keys(log: Seq<LogEntry>) -> Seq<(u64, SessionId)> {
    log.map_values(|e: LogEntry| (e.lamport, e.session))
}

/// The keys of `ks` that are not in `have`, in order.
pub open spec fn fresh_keys(ks: Seq<(u64, SessionId)>, have: Set<(u64, SessionId)>) -> Seq<(u64, SessionId)>
    decreases ks.len(),
{
    if ks.len() == 0 {
        seq![]
    } else if have.contains(ks.last()) {
        fresh_keys(ks.drop_last(), have)
    } else {
        fresh_keys(ks.drop_last(), have).push(ks.last())
    }
}

/// The entries of `es` whose keys are not in `have`, in order.
pub open spec fn fresh_entries(es: Seq<LogEntry>, have: Set<(u64, SessionId)>) -> Seq<LogEntry>
    decreases es.len(),
{
    if es.len() == 0 {
        seq![]
    } else if have.contains((es.last().lamport, es.last().session)) {
        fresh_entries(es.drop_last(), have)
    } else {
        fresh_entries(es.drop_last(), have).push(es.last())
    }
}

/// The largest lamport of `log` (0 for an empty log).
pub open spec fn max_lamport(log: Seq<LogEntry>) -> u64
    decreases log.len(),
{
    if log.len() == 0 {
        0
    } else {
        let m = max_lamport(log.drop_last());
        if log.last().lamport > m {
            log.last().lamport
        } else {
            m
        }
    }
}

/// The lamport clock after merging `other` into a replica whose clock is `clock`.
pub open spec fn merged_clock(clock: u64, other: Seq<LogEntry>) -> u64 {
    if other.len() == 0 {
        clock
    } else if clock > max_lamport(other) + 1 {
        clock
    } else {
        (max_lamport(other) + 1) as u64
    }
}

/// Merging keeps every key and adds those of the other replica: as sets,
/// the keys after a merge are the union of both replicas' keys.
pub proof fn lemma_merge_keys_union(mine: Seq<(u64, SessionId)>, theirs: Seq<(u64, SessionId)>)
    ensures
        (mine + fresh_keys(theirs, mine.to_set())).to_set() == mine.to_set() + theirs.to_set(),
{
    lemma_fresh_keys_elements(theirs, mine.to_set());
    let fresh = fresh_keys(theirs, mine.to_set());
    vstd::seq_lib::seq_to_set_distributes_over_add(mine, fresh);
    assert(mine.to_set() + fresh.to_set() =~= mine.to_set() + theirs.to_set());
}

/// The fresh keys are exactly the keys of `ks` that are not in `have`.
pub proof fn lemma_fresh_keys_elements(ks: Seq<(u64, SessionId)>, have: Set<(u64, SessionId)>)
    ensures
        forall|k: (u64, SessionId)| #[trigger] fresh_keys(ks, have).contains(k) <==> (!have.contains(k)
            && ks.contains(k)),
    decreases ks.len(),
{
    if ks.len() > 0 {
        let init = ks.drop_last();
        lemma_fresh_keys_elements(init, have);
        assert(ks == init.push(ks.last()));
        let f0 = fresh_keys(init, have);
        assert forall|k: (u64, SessionId)| #[trigger] fresh_keys(ks, have).contains(k) <==> (!have.contains(k)
            && ks.contains(k)) by {
            if have.contains(ks.last()) {
                assert(fresh_keys(ks, have) == f0);
            } else {
                assert(fresh_keys(ks, have) == f0.push(ks.last()));
            }
        }
    }
}

/// Merging the same replica a second time adds nothing: no key is fresh any more.
pub proof fn lemma_merge_idempotent(mine: Seq<(u64, SessionId)>, theirs: Seq<(u64, SessionId)>)
    ensures
        fresh_keys(theirs, (mine + fresh_keys(theirs, mine.to_set())).to_set()) == Seq::<
            (u64, SessionId),
        >::empty(),
{
    lemma_merge_keys_union(mine, theirs);
    lemma_fresh_all_known(theirs, (mine + fresh_keys(theirs, mine.to_set())).to_set());
}

/// When `have` holds every key of `ks`, none of them is fresh.
pub proof fn lemma_fresh_all_known(ks: Seq<(u64, SessionId)>, have: Set<(u64, SessionId)>)
    requires
        forall|i: int| 0 <= i < ks.len() ==> have.contains(#[trigger] ks[i]),
    ensures
        fresh_keys(ks, have) == Seq::<(u64, SessionId)>::empty(),
    decreases ks.len(),
{
    if ks.len() > 0 {
        assert(have.contains(ks[ks.len() - 1]));
        lemma_fresh_all_known(ks.drop_last(), have);
    }
}

/// The lamport clock after a merge is at least the old clock and exceeds
/// every lamport of the merged replica; a second merge leaves it unchanged.
pub proof fn lemma_merged_clock(clock: u64, other: Seq<LogEntry>)
    requires
        forall|k: int| 0 <= k < other.len() ==> (#[trigger] other[k]).lamport < u64::MAX,
    ensures
        merged_clock(clock, other) >= clock,
        forall|k: int| 0 <= k < other.len() ==> (#[trigger] other[k]).lamport < merged_clock(clock, other),
        merged_clock(merged_clock(clock, other), other) == merged_clock(clock, other),
{
    lemma_max_lamport(other);
}

/// `max_lamport` is the largest lamport of the log.
pub proof fn lemma_max_lamport(log: Seq<LogEntry>)
    ensures
        forall|k: int| 0 <= k < log.len() ==> (#[trigger] log[k]).lamport <= max_lamport(log),
        log.len() > 0 ==> exists|k: int| 0 <= k < log.len() && log[k].lamport == max_lamport(log),
    decreases log.len(),
{
    if log.len() > 0 {
        lemma_max_lamport(log.drop_last());
        assert forall|k: int| 0 <= k < log.len() implies (#[trigger] log[k]).lamport <= max_lamport(log) by {
            if k < log.len() - 1 {
                assert(log.drop_last()[k] == log[k]);
            }
        }
        if log.drop_last().len() > 0 && log.last().lamport <= max_lamport(log.drop_last()) {
            let k = choose|k: int|
                0 <= k < log.drop_last().len() && log.drop_last()[k].lamport == max_lamport(
                    log.drop_last(),
                );
            assert(log[k] == log.drop_last()[k]);
        } else {
            assert(log[log.len() - 1].lamport == max_lamport(log));
        }
    }
}

/// Every entry of the log has a lamport below the clock, so that an entry
/// logged next comes after all of them.
pub open spec fn clock_ahead(p: Project) -> bool {
    forall|j: int| 0 <= j < p.log@.len() ==> (#[trigger] p.log@[j]).lamport < p.lamport_clock
}

/// Merging keeps the clock ahead of every entry.
proof fn lemma_merge_keeps_clock_ahead(
    old_log: Seq<LogEntry>,
    old_clock: u64,
    other: Seq<LogEntry>,
    new_log: Seq<LogEntry>,
)
    requires
        forall|j: int| 0 <= j < old_log.len() ==> (#[trigger] old_log[j]).lamport < old_clock,
        forall|k: int| 0 <= k < other.len() ==> (#[trigger] other[k]).lamport < u64::MAX,
        log_keys(new_log) == log_keys(old_log) + fresh_keys(log_keys(other), log_keys(old_log).to_set()),
    ensures
        forall|j: int| 0 <= j < new_log.len() ==> (#[trigger] new_log[j]).lamport < merged_clock(old_clock, other),
{
    lemma_merged_clock(old_clock, other);
    let theirs = log_keys(other);
    lemma_fresh_keys_elements(theirs, log_keys(old_log).to_set());
    assert forall|j: int| 0 <= j < new_log.len() implies (#[trigger] new_log[j]).lamport < merged_clock(
        old_clock,
        other,
    ) by {
        assert(log_keys(new_log)[j] == (new_log[j].lamport, new_log[j].session));
        if j < old_log.len() {
            assert(log_keys(old_log)[j] == (old_log[j].lamport, old_log[j].session));
        } else {
            let key = log_keys(new_log)[j];
            let f = fresh_keys(theirs, log_keys(old_log).to_set());
            assert(log_keys(new_log).len() == new_log.len());
            assert(log_keys(old_log).len() == old_log.len());
            assert(log_keys(new_log).len() == old_log.len() + f.len());
            assert((log_keys(old_log) + f)[j] == f[j - old_log.len()]);
            assert(f[j - old_log.len()] == key);
            assert(fresh_keys(theirs, log_keys(old_log).to_set()).contains(key));
            assert(theirs.contains(key));
            let k = choose|k: int| 0 <= k < theirs.len() && theirs[k] == key;
            assert(theirs[k] == (other[k].lamport, other[k].session));
        }
    }
}

/// Checks that `reg` knows every module that `entry` refers to.
fn check_entry_modules(entry: &LogEntry, reg: &ModuleRegistry) -> (r: Result<(), MergeError>)
    ensures
        match entry_unknown_module(*entry, reg@) {
            Some(m) => r == Err::<(), MergeError>(MergeError::UnknownModule(m)),
            None => r is Ok,
        },
{
    if let LogPayload::Changes(changes) = &entry.payload {
        assert(entry_unknown_module(*entry, reg@) == first_unknown_module(changes@, reg@));
        assert(changes@.skip(0) == changes@);
        let mut i: usize = 0;
        while i < changes.len()
            invariant
                i <= changes.len(),
                entry_unknown_module(*entry, reg@) == first_unknown_module(changes@, reg@),
                first_unknown_module(changes@, reg@) == first_unknown_module(changes@.skip(i as int), reg@),
            decreases changes.len() - i,
        {
            let ghost rest = changes@.skip(i as int);
            assert(rest.skip(1) == changes@.skip(i + 1));
            assert(rest[0] == changes@[i as int]);
            match &changes[i] {
                Change::CreateData { module, .. } => {
                    assert(change_module(rest[0]) == Some(*module));
                    if !reg.contains(*module) {
                        assert(first_unknown_module(rest, reg@) == Some(*module));
                        return Err(MergeError::UnknownModule(*module));
                    }
                },
                Change::Transaction { args, .. } => {
                    assert(change_module(rest[0]) == Some(args.module));
                    if !reg.contains(args.module) {
                        assert(first_unknown_module(rest, reg@) == Some(args.module));
                        return Err(MergeError::UnknownModule(args.module));
                    }
                },
                Change::UserTransaction { args, .. } => {
                    assert(change_module(rest[0]) == Some(args.module));
                    if !reg.contains(args.module) {
                        assert(first_unknown_module(rest, reg@) == Some(args.module));
                        return Err(MergeError::UnknownModule(args.module));
                    }
                },
                _ => {},
            }
            i += 1;
        }
        assert(changes@.skip(i as int).len() == 0);
    }
    Ok(())
}

impl Project {
    /// A new, empty project on the `main` branch of the local user, with a
    /// fresh random identity.
    pub fn new() -> (r: Project)
        ensures
            is_random_uuid(r.uuid),
            r.user.0 == 0,
            r.session is None,
            r.branch.0 == 0,
            r.lamport_clock == 0,
            r.log@.len() == 0,
            clock_ahead(r),
            r.session_data@.len() == 0,
            r.shared_data@.len() == 0,
    {
        Project {
            uuid: crate::ids::random_project_uuid(),
            user: UserId::local(),
            session: None,
            branch: BranchId::main(),
            lamport_clock: 0,
            log: Vec::new(),
            session_data: Vec::new(),
            shared_data: Vec::new(),
        }
    }

    /// The first module, in log order, that the log refers to and `reg` lacks.
    pub fn unknown_module(&self, reg: &ModuleRegistry) -> (r: Option<ModuleId>)
        ensures
            r == log_unknown_module(self.log@, reg@),
    {
        let mut i: usize = 0;
        assert(self.log@.skip(0) == self.log@);
        while i < self.log.len()
            invariant
                i <= self.log.len(),
                log_unknown_module(self.log@, reg@) == log_unknown_module(self.log@.skip(i as int), reg@),
            decreases self.log.len() - i,
        {
            let ghost rest = self.log@.skip(i as int);
            assert(rest.skip(1) == self.log@.skip(i + 1));
            assert(rest[0] == self.log@[i as int]);
            if let Err(MergeError::UnknownModule(m)) = check_entry_modules(&self.log[i], reg) {
                return Some(m);
            }
            i += 1;
        }
        None
    }

    /// Whether `other` is a replica of the same project.
    pub fn is_same_source_as(&self, other: &Project) -> (r: bool)
        ensures
            r == (self.uuid == other.uuid),
    {
        self.uuid == other.uuid
    }

    /// Merges another replica's log into this one.
    ///
    /// Fails, changing nothing, when the replicas belong to different
    /// projects, or when the remote log refers to a module that `reg` lacks.
    /// Otherwise appends, in order, every remote entry whose
    /// `(lamport, session)` key this log did not hold, and moves the lamport
    /// clock past every remote entry.
    pub fn merge_remote(&mut self, other: &Project, reg: &ModuleRegistry) -> (r: Result<(), MergeError>)
        requires
            forall|k: int| 0 <= k < other.log@.len() ==> (#[trigger] other.log@[k]).lamport < u64::MAX,
        ensures
            final(self).uuid == old(self).uuid,
            final(self).user == old(self).user,
            final(self).session == old(self).session,
            final(self).branch == old(self).branch,
            old(self).uuid != other.uuid ==> r == Err::<(), MergeError>(MergeError::DifferentProject)
                && final(self).log@ == old(self).log@ && final(self).lamport_clock == old(self).lamport_clock,
            old(self).uuid == other.uuid && log_unknown_module(other.log@, reg@) is Some ==> r == Err::<
                (),
                MergeError,
            >(MergeError::UnknownModule(log_unknown_module(other.log@, reg@)->0)) && final(self).log@
                == old(self).log@ && final(self).lamport_clock == old(self).lamport_clock,
            old(self).uuid == other.uuid && log_unknown_module(other.log@, reg@) is None ==> {
                &&& r is Ok
                &&& log_keys(final(self).log@) == log_keys(old(self).log@) + fresh_keys(
                    log_keys(other.log@),
                    log_keys(old(self).log@).to_set(),
                )
                &&& final(self).log@ == old(self).log@ + fresh_entries(other.log@, log_keys(old(self).log@).to_set())
                &&& final(self).lamport_clock == merged_clock(old(self).lamport_clock, other.log@)
            },
            clock_ahead(*old(self)) ==> clock_ahead(*final(self)),
    {
        if self.uuid != other.uuid {
            return Err(MergeError::DifferentProject);
        }
        if let Some(m) = other.unknown_module(reg) {
            return Err(MergeError::UnknownModule(m));
        }

        let ghost old_log = self.log@;
        let ghost have_set = log_keys(old_log).to_set();
        let mut have: Vec<(u64, SessionId)> = Vec::new();
        let mut k: usize = 0;
        while k < self.log.len()
            invariant
                k <= self.log.len(),
                self.log@ == old_log,
                self.uuid == old(self).uuid,
                self.user == old(self).user,
                self.session == old(self).session,
                self.branch == old(self).branch,
                self.lamport_clock == old(self).lamport_clock,
                have@ == log_keys(old_log).take(k as int),
            decreases self.log.len() - k,
        {
            have.push((self.log[k].lamport, self.log[k].session));
            assert(log_keys(old_log).take(k + 1) == log_keys(old_log).take(k as int).push(
                (old_log[k as int].lamport, old_log[k as int].session),
            ));
            k += 1;
        }
        assert(log_keys(old_log).take(k as int) == log_keys(old_log));

        let ghost theirs = log_keys(other.log@);
        let mut j: usize = 0;
        while j < other.log.len()
            invariant
                j <= other.log.len(),
                theirs == log_keys(other.log@),
                self.uuid == old(self).uuid,
                self.user == old(self).user,
                self.session == old(self).session,
                self.branch == old(self).branch,
                self.lamport_clock == old(self).lamport_clock,
                old_log == old(self).log@,
                have@ == log_keys(old_log),
                have_set == log_keys(old_log).to_set(),
                log_keys(self.log@) == log_keys(old_log) + fresh_keys(theirs.take(j as int), have_set),
                self.log@.subrange(0, old_log.len() as int) == old_log,
                self.log@ == old_log + fresh_entries(other.log@.take(j as int), have_set),
            decreases other.log.len() - j,
        {
            let e = &other.log[j];
            let key = (e.lamport, e.session);
            assert(theirs.take(j + 1).drop_last() == theirs.take(j as int));
            assert(theirs.take(j + 1).last() == key);
            assert(other.log@.take(j + 1).drop_last() == other.log@.take(j as int));
            assert(other.log@.take(j + 1).last() == *e);
            let mut found = false;
            let mut h: usize = 0;
            while h < have.len()
                invariant
                    h <= have.len(),
                    found == exists|x: int| 0 <= x < h && have@[x] == key,
                decreases have.len() - h,
            {
                if have[h].0 == key.0 && have[h].1 == key.1 {
                    found = true;
                }
                h += 1;
            }
            assert(found == have_set.contains(key));
            if !found {
                let ghost before = self.log@;
                self.log.push(e.clone());
                assert(log_keys(self.log@) == log_keys(before).push(key));
                assert(self.log@.subrange(0, old_log.len() as int) == before.subrange(0, old_log.len() as int));
            }
            j += 1;
        }
        assert(theirs.take(j as int) == theirs);
        assert(other.log@.take(j as int) == other.log@);

        if other.log.len() > 0 {
            let mut m: u64 = 0;
            let mut x: usize = 0;
            while x < other.log.len()
                invariant
                    x <= other.log.len(),
                    m == max_lamport(other.log@.take(x as int)),
                decreases other.log.len() - x,
            {
                assert(other.log@.take(x + 1).drop_last() == other.log@.take(x as int));
                if other.log[x].lamport > m {
                    m = other.log[x].lamport;
                }
                x += 1;
            }
            assert(other.log@.take(x as int) == other.log@);
            proof {
                lemma_max_lamport(other.log@);
            }
            let next = m + 1;
            if next > self.lamport_clock {
                self.lamport_clock = next;
            }
        }
        proof {
            if clock_ahead(*old(self)) {
                lemma_merge_keeps_clock_ahead(old_log, old(self).lamport_clock, other.log@, self.log@);
            }
        }
        Ok(())
    }
}

} // verus!

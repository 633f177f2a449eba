//! Bookkeeping of the viewport's cached computations: for each compute
//! node, the reads its last run made on the project and the project version
//! it ran against, so that a node reruns only when what it read changed.

use vstd::prelude::*;
use crate::access::{cache_valid, AccessEvent, AccessRecorder, CacheValidator, TrackedProjectView};
use crate::view::ProjectView;
use crate::viewport::ViewportPipeline;

verus! {

broadcast use vstd::seq_lib::group_seq_properties;

/// What is known of the cached result of one compute node.
#[derive(Debug, Clone)]
pub struct NodeCache {
    /// The name of the node.
    pub node: String,
    /// The reads its last run made.
    pub validator: CacheValidator,
    /// The project version its cached result stands for.
    pub version: u64,
}

/// The reads that one run of a node made, still being recorded.
#[derive(Debug)]
pub struct NodeRun {
    pub node: String,
    pub recorder: AccessRecorder,
    pub version: u64,
}

/// A node's cache as the specification sees it: name, reads and version.
pub open spec fn node_model(n: NodeCache) -> (Seq<char>, Seq<AccessEvent>, u64) {
    (n.node@, n.validator.0@, n.version)
}

/// The caches of all nodes, as the specification sees them.
pub open spec fn caches_model(nodes: Seq<NodeCache>) -> Seq<(Seq<char>, Seq<AccessEvent>, u64)> {
    nodes.map_values(|n: NodeCache| node_model(n))
}

/// A run as the specification sees it: name, reads and version.
pub open spec fn runs_model(runs: Seq<NodeRun>) -> Seq<(Seq<char>, Seq<AccessEvent>, u64)> {
    runs.map_values(|r: NodeRun| (r.node@, r.recorder.0@, r.version))
}

/// Position of the first entry named `name`, or `-1`.
pub open spec fn named_pos(s: Seq<(Seq<char>, Seq<AccessEvent>, u64)>, name: Seq<char>) -> int
    decreases s.len(),
{
    if s.len() == 0 {
        -1
    } else {
        let r = named_pos(s.drop_last(), name);
        if r >= 0 {
            r
        } else if s.last().0 == name {
            s.len() - 1
        } else {
            -1
        }
    }
}

/// `named_pos` is the first position holding `name`, or `-1` when none does.
pub proof fn lemma_named_pos(s: Seq<(Seq<char>, Seq<AccessEvent>, u64)>, name: Seq<char>)
    ensures
        -1 <= named_pos(s, name) < s.len(),
        named_pos(s, name) >= 0 ==> s[named_pos(s, name)].0 == name,
        forall|j: int|
            0 <= j < s.len() && (named_pos(s, name) < 0 || j < named_pos(s, name)) ==> (#[trigger] s[j]).0 != name,
    decreases s.len(),
{
    if s.len() > 0 {
        lemma_named_pos(s.drop_last(), name);
        assert forall|j: int|
            0 <= j < s.len() && (named_pos(s, name) < 0 || j < named_pos(s, name)) implies (#[trigger] s[j]).0
            != name by {
            if j < s.len() - 1 {
                assert(s.drop_last()[j] == s[j]);
            }
        }
    }
}

/// The version under which node `name` runs: that of its cache, or the
/// current `version` for a node without one.
pub open spec fn version_for(caches: Seq<(Seq<char>, Seq<AccessEvent>, u64)>, name: Seq<char>, version: u64) -> u64 {
    let p = named_pos(caches, name);
    if p >= 0 {
        caches[p].2
    } else {
        version
    }
}

/// The caches after the project moved from `prev` to `view` at `version`:
/// a cache whose reads changed stands for `version` from now on, so that
/// its node reruns.
pub open spec fn caches_after_new_version(
    caches: Seq<(Seq<char>, Seq<AccessEvent>, u64)>,
    prev: ProjectView,
    view: ProjectView,
    version: u64,
) -> Seq<(Seq<char>, Seq<AccessEvent>, u64)> {
    caches.map_values(
        |c: (Seq<char>, Seq<AccessEvent>, u64)|
            if cache_valid(c.1, prev, view) {
                c
            } else {
                (c.0, c.1, version)
            },
    )
}

/// The caches after the runs `runs`: a node that ran and read something
/// takes the reads and version of its (first) run; a node that ran without
/// reading keeps its cache; a node that ran without a cache gets one; a
/// node without a run among `runs` loses its cache, whether it left the
/// pipeline or was not reached.
pub open spec fn caches_after_runs(
    caches: Seq<(Seq<char>, Seq<AccessEvent>, u64)>,
    runs: Seq<(Seq<char>, Seq<AccessEvent>, u64)>,
) -> Seq<(Seq<char>, Seq<AccessEvent>, u64)> {
    ran_caches(caches, runs, caches.len() as int) + new_runs(caches, runs, runs.len() as int)
}

/// Among the first `k` caches, those whose node ran, each after the runs.
pub open spec fn ran_caches(
    caches: Seq<(Seq<char>, Seq<AccessEvent>, u64)>,
    runs: Seq<(Seq<char>, Seq<AccessEvent>, u64)>,
    k: int,
) -> Seq<(Seq<char>, Seq<AccessEvent>, u64)>
    decreases k,
{
    if k <= 0 {
        seq![]
    } else {
        let rest = ran_caches(caches, runs, k - 1);
        if named_pos(runs, caches[k - 1].0) >= 0 {
            rest.push(updated_cache(caches[k - 1], runs))
        } else {
            rest
        }
    }
}

/// Cache `c` after the runs `runs`: the first run of its node, when that run
/// read something, and `c` otherwise.
pub open spec fn updated_cache(
    c: (Seq<char>, Seq<AccessEvent>, u64),
    runs: Seq<(Seq<char>, Seq<AccessEvent>, u64)>,
) -> (Seq<char>, Seq<AccessEvent>, u64) {
    let p = named_pos(runs, c.0);
    if p >= 0 && runs[p].1.len() > 0 {
        runs[p]
    } else {
        c
    }
}

/// Among the first `n` runs, those that are the first of their name and
/// whose node has no cache, in order.
pub open spec fn new_runs(
    caches: Seq<(Seq<char>, Seq<AccessEvent>, u64)>,
    runs: Seq<(Seq<char>, Seq<AccessEvent>, u64)>,
    n: int,
) -> Seq<(Seq<char>, Seq<AccessEvent>, u64)>
    decreases n,
{
    if n <= 0 {
        seq![]
    } else {
        let rest = new_runs(caches, runs, n - 1);
        let r = runs[n - 1];
        if named_pos(caches, r.0) < 0 && named_pos(runs, r.0) == n - 1 {
            rest.push(r)
        } else {
            rest
        }
    }
}

/// The caches of the compute nodes of a viewport.
#[derive(Debug, Clone)]
pub struct CacheMetadata {
    pub nodes: Vec<NodeCache>,
}

/// A copy of `events`.
fn copy_events(events: &Vec<AccessEvent>) -> (r: Vec<AccessEvent>)
    ensures
        r@ == events@,
{
    let mut r: Vec<AccessEvent> = Vec::new();
    let mut k: usize = 0;
    while k < events.len()
        invariant
            k <= events.len(),
            r@ == events@.take(k as int),
        decreases events.len() - k,
    {
        r.push(events[k]);
        assert(events@.take(k + 1) == events@.take(k as int).push(events@[k as int]));
        k += 1;
    }
    assert(events@.take(k as int) == events@);
    r
}

/// Position of the first run of node `name`.
fn run_pos(runs: &Vec<NodeRun>, name: &String) -> (r: Option<usize>)
    ensures
        match r {
            Some(i) => i < runs.len() && named_pos(runs_model(runs@), name@) == i as int,
            None => named_pos(runs_model(runs@), name@) == -1,
        },
{
    let ghost m = runs_model(runs@);
    let mut k: usize = 0;
    while k < runs.len()
        invariant
            k <= runs.len(),
            m == runs_model(runs@),
            forall|j: int| 0 <= j < k ==> (#[trigger] m[j]).0 != name@,
        decreases runs.len() - k,
    {
        if runs[k].node == *name {
            assert(m[k as int].0 == name@);
            proof {
                lemma_named_pos(m, name@);
            }
            return Some(k);
        }
        k += 1;
    }
    proof {
        lemma_named_pos(m, name@);
    }
    None
}

/// Position of the first cache of node `name`.
fn cache_pos(nodes: &Vec<NodeCache>, name: &String) -> (r: Option<usize>)
    ensures
        match r {
            Some(i) => i < nodes.len() && named_pos(caches_model(nodes@), name@) == i as int,
            None => named_pos(caches_model(nodes@), name@) == -1,
        },
{
    let ghost m = caches_model(nodes@);
    let mut k: usize = 0;
    while k < nodes.len()
        invariant
            k <= nodes.len(),
            m == caches_model(nodes@),
            forall|j: int| 0 <= j < k ==> (#[trigger] m[j]).0 != name@,
        decreases nodes.len() - k,
    {
        if nodes[k].node == *name {
            assert(m[k as int].0 == name@);
            proof {
                lemma_named_pos(m, name@);
            }
            return Some(k);
        }
        k += 1;
    }
    proof {
        lemma_named_pos(m, name@);
    }
    None
}

impl CacheMetadata {
    /// No cache yet.
    pub fn new() -> (r: CacheMetadata)
        ensures
            r.nodes@.len() == 0,
    {
        CacheMetadata { nodes: Vec::new() }
    }

    /// The version under which node `name` runs: that of its cache, or
    /// `version` for a node without one.
    pub fn version_for(&self, name: &String, version: u64) -> (r: u64)
        ensures
            r == version_for(caches_model(self.nodes@), name@, version),
    {
        match cache_pos(&self.nodes, name) {
            Some(i) => self.nodes[i].version,
            None => version,
        }
    }

    /// Records that the project moved from `prev` to `view`, now at
    /// `version`: every cache whose reads changed stands for `version`.
    pub fn update_cache_versions(&mut self, view: &ProjectView, version: u64, prev: &ProjectView)
        ensures
            caches_model(final(self).nodes@) == caches_after_new_version(caches_model(old(self).nodes@), *prev, *view, version),
    {
        let ghost m = caches_model(self.nodes@);
        let mut out: Vec<NodeCache> = Vec::new();
        let mut k: usize = 0;
        while k < self.nodes.len()
            invariant
                k <= self.nodes.len(),
                m == caches_model(self.nodes@),
                caches_model(out@) == caches_after_new_version(m.take(k as int), *prev, *view, version),
            decreases self.nodes.len() - k,
        {
            let valid = self.nodes[k].validator.is_cache_valid(prev, view);
            let c = NodeCache {
                node: self.nodes[k].node.clone(),
                validator: CacheValidator(copy_events(&self.nodes[k].validator.0)),
                version: if valid {
                    self.nodes[k].version
                } else {
                    version
                },
            };
            let ghost before = out@;
            out.push(c);
            assert(m.take(k + 1) == m.take(k as int).push(m[k as int]));
            assert(caches_model(out@) =~= caches_model(before).push(node_model(c)));
            assert(caches_after_new_version(m.take(k + 1), *prev, *view, version) =~= caches_after_new_version(
                m.take(k as int),
                *prev,
                *view,
                version,
            ).push(node_model(c)));
            k += 1;
        }
        assert(m.take(k as int) == m);
        self.nodes = out;
    }

    /// Takes in the reads of the runs `runs`: a node that ran and read
    /// something takes the reads and version of its first run; a node that
    /// ran and had no cache gets one; a node without a run in this pass
    /// loses its cache, whether it left the pipeline or the pass did not
    /// reach it.
    pub fn update_cache_metadata(&mut self, runs: &Vec<NodeRun>)
        ensures
            caches_model(final(self).nodes@) == caches_after_runs(caches_model(old(self).nodes@), runs_model(runs@)),
    {
        let ghost m = caches_model(self.nodes@);
        let ghost rm = runs_model(runs@);
        let mut out: Vec<NodeCache> = Vec::new();
        let mut k: usize = 0;
        while k < self.nodes.len()
            invariant
                k <= self.nodes.len(),
                m == caches_model(self.nodes@),
                rm == runs_model(runs@),
                caches_model(out@) == ran_caches(m, rm, k as int),
            decreases self.nodes.len() - k,
        {
            match run_pos(runs, &self.nodes[k].node) {
                Some(p) => {
                    let c = if runs[p].recorder.0.len() > 0 {
                        NodeCache {
                            node: runs[p].node.clone(),
                            validator: CacheValidator(copy_events(&runs[p].recorder.0)),
                            version: runs[p].version,
                        }
                    } else {
                        NodeCache {
                            node: self.nodes[k].node.clone(),
                            validator: CacheValidator(copy_events(&self.nodes[k].validator.0)),
                            version: self.nodes[k].version,
                        }
                    };
                    let ghost before = out@;
                    out.push(c);
                    assert(caches_model(out@) =~= caches_model(before).push(node_model(c)));
                    assert(node_model(c) == updated_cache(m[k as int], rm));
                },
                None => {},
            }
            k += 1;
        }
        assert(new_runs(m, rm, 0) =~= seq![]);
        let mut j: usize = 0;
        while j < runs.len()
            invariant
                j <= runs.len(),
                m == caches_model(self.nodes@),
                rm == runs_model(runs@),
                caches_model(out@) == ran_caches(m, rm, m.len() as int) + new_runs(m, rm, j as int),
            decreases runs.len() - j,
        {
            let fresh = cache_pos(&self.nodes, &runs[j].node).is_none();
            let first = match run_pos(runs, &runs[j].node) {
                Some(p) => p == j,
                None => false,
            };
            if fresh && first {
                let c = NodeCache {
                    node: runs[j].node.clone(),
                    validator: CacheValidator(copy_events(&runs[j].recorder.0)),
                    version: runs[j].version,
                };
                let ghost before = out@;
                out.push(c);
                assert(caches_model(out@) =~= caches_model(before).push(node_model(c)));
            }
            j += 1;
        }
        self.nodes = out;
    }
}

/// The caches of a node's compute graph when it ran last: the view and the
/// version of the project it ran against, and the nodes' caches, which a
/// run has out while it computes.
#[derive(Debug)]
pub struct ViewportCache {
    pub prev_project_view: Option<ProjectView>,
    pub version: u64,
    pub metadata: Option<CacheMetadata>,
}

/// The node caches of `m`, or none.
pub open spec fn metadata_model(m: Option<CacheMetadata>) -> Seq<(Seq<char>, Seq<AccessEvent>, u64)> {
    match m {
        Some(c) => caches_model(c.nodes@),
        None => seq![],
    }
}

impl ViewportCache {
    /// Nothing computed yet.
    pub fn new() -> (r: ViewportCache)
        ensures
            r.prev_project_view is None,
            r.version == 0,
            r.metadata is None,
    {
        ViewportCache { prev_project_view: None, version: 0, metadata: None }
    }

    /// Starts a run against `view` at `version`: hands out the node caches,
    /// brought up to `version` when the project moved since the last run
    /// (a node whose reads changed now stands for `version`), and remembers
    /// `view` and `version`.
    pub fn begin_run(&mut self, view: ProjectView, version: u64) -> (r: CacheMetadata)
        ensures
            caches_model(r.nodes@) == (match old(self).prev_project_view {
                Some(prev) => if old(self).version != version {
                    caches_after_new_version(metadata_model(old(self).metadata), prev, view, version)
                } else {
                    metadata_model(old(self).metadata)
                },
                None => metadata_model(old(self).metadata),
            }),
            final(self).prev_project_view == Some(view),
            final(self).version == version,
            final(self).metadata is None,
    {
        let taken = self.metadata.take();
        let mut metadata = match taken {
            Some(m) => m,
            None => CacheMetadata::new(),
        };
        assert(caches_model(metadata.nodes@) =~= metadata_model(old(self).metadata));
        match &self.prev_project_view {
            Some(prev) => {
                if self.version != version {
                    metadata.update_cache_versions(&view, version, prev);
                }
            },
            None => {},
        }
        self.version = version;
        self.prev_project_view = Some(view);
        metadata
    }

    /// Ends a run: takes in the reads of its node runs `runs` and keeps the
    /// node caches for the next run.
    pub fn finish_run(&mut self, metadata: CacheMetadata, runs: &Vec<NodeRun>)
        ensures
            metadata_model(final(self).metadata) == caches_after_runs(caches_model(metadata.nodes@), runs_model(runs@)),
            final(self).metadata is Some,
            final(self).prev_project_view == old(self).prev_project_view,
            final(self).version == old(self).version,
    {
        let mut metadata = metadata;
        metadata.update_cache_metadata(runs);
        self.metadata = Some(metadata);
    }
}

/// Why the scene of a pipeline cannot be computed.
#[derive(Debug, Clone, Copy, PartialEq, Eq, Structural)]
pub enum ExecuteError {
    /// The pipeline has no plugin.
    EmptyPipeline,
}

impl ViewportCache {
    /// Starts computing the scene of `pipeline` against `view` at `version`:
    /// the caches are brought up to `version` as by [`ViewportCache::begin_run`];
    /// an empty pipeline has no scene, and its caches are dropped.
    pub fn begin_scene(&mut self, pipeline: &ViewportPipeline, view: ProjectView, version: u64) -> (r: Result<
        CacheMetadata,
        ExecuteError,
    >)
        ensures
            final(self).prev_project_view == Some(view),
            final(self).version == version,
            final(self).metadata is None,
            pipeline.outputs@.len() == 0 <==> r == Err::<CacheMetadata, ExecuteError>(ExecuteError::EmptyPipeline),
            r matches Ok(m) ==> caches_model(m.nodes@) == (match old(self).prev_project_view {
                Some(prev) => if old(self).version != version {
                    caches_after_new_version(metadata_model(old(self).metadata), prev, view, version)
                } else {
                    metadata_model(old(self).metadata)
                },
                None => metadata_model(old(self).metadata),
            }),
    {
        let metadata = self.begin_run(view, version);
        if pipeline.is_empty() {
            return Err(ExecuteError::EmptyPipeline);
        }
        Ok(metadata)
    }
}

impl Default for ViewportCache {
    fn default() -> (r: ViewportCache)
        ensures
            r.prev_project_view is None,
            r.version == 0,
            r.metadata is None,
    {
        ViewportCache::new()
    }
}

/// What a compute node gets of the project: the view it reads through,
/// with the version it runs under; or, in a copy that the compute graph
/// keeps to compare inputs, the version alone.
#[derive(Debug)]
pub enum ProjectState<'a> {
    Valid(TrackedProjectView<'a>, u64),
    Cloned(u64),
}

/// The version a project state stands for.
pub open spec fn state_version(p: ProjectState) -> u64 {
    match p {
        ProjectState::Valid(_, v) => v,
        ProjectState::Cloned(v) => v,
    }
}

impl<'a> ProjectState<'a> {
    /// A state reading through `view` under `version`.
    pub fn new(view: TrackedProjectView<'a>, version: u64) -> (r: ProjectState<'a>)
        ensures
            r == ProjectState::Valid(view, version),
    {
        ProjectState::Valid(view, version)
    }

    /// The version this state stands for.
    pub fn version(&self) -> (r: u64)
        ensures
            r == state_version(*self),
    {
        match self {
            ProjectState::Valid(_, v) => *v,
            ProjectState::Cloned(v) => *v,
        }
    }

    /// The view to read through; only a state that is not a copy has one.
    pub fn tracked_view(&mut self) -> (r: &mut TrackedProjectView<'a>)
        requires
            *old(self) is Valid,
        ensures
            *old(self) == ProjectState::Valid(*r, state_version(*old(self))),
            *final(self) == ProjectState::Valid(*final(r), state_version(*old(self))),
    {
        match self {
            ProjectState::Valid(view, _) => view,
            ProjectState::Cloned(_) => vstd::pervasive::unreached(),
        }
    }
}

impl<'a> Clone for ProjectState<'a> {
    /// A copy keeps the version only.
    fn clone(&self) -> (r: Self)
        ensures
            r == ProjectState::<'a>::Cloned(state_version(*self)),
    {
        ProjectState::Cloned(self.version())
    }
}

impl<'a> PartialEq for ProjectState<'a> {
    /// Two states are equal when they stand for the same version.
    fn eq(&self, other: &Self) -> (r: bool) {
        self.version() == other.version()
    }
}

impl<'a> vstd::std_specs::cmp::PartialEqSpecImpl for ProjectState<'a> {
    open spec fn obeys_eq_spec() -> bool {
        true
    }

    open spec fn eq_spec(&self, other: &Self) -> bool {
        state_version(*self) == state_version(*other)
    }
}

} // verus!

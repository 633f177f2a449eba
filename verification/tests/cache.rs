use project::access::{AccessEvent, AccessRecorder, CacheValidator};
use project::cache::{CacheMetadata, ExecuteError, NodeCache, NodeRun, ProjectState, ViewportCache};
use project::viewport::{PluginPosition, ViewportPipeline};
use std::any::TypeId;
use project::access::TrackedProjectView;
use project::{DataId, Document, DocumentId, ErasedData, ModuleId, ProjectView, UserId};

fn view(persistent: u8) -> ProjectView {
    ProjectView {
        uuid: 7,
        user: UserId::local(),
        data: vec![(
            DataId(1),
            ErasedData {
                module: ModuleId(1),
                persistent: vec![persistent],
                persistent_user: vec![],
                session: vec![],
                shared: vec![],
            },
        )],
        documents: vec![(DocumentId(1), Document { data: vec![DataId(1)] })],
    }
}

fn cache(node: &str, events: Vec<AccessEvent>, version: u64) -> NodeCache {
    NodeCache { node: node.to_string(), validator: CacheValidator(events), version }
}

fn run(node: &str, events: Vec<AccessEvent>, version: u64) -> NodeRun {
    NodeRun { node: node.to_string(), recorder: AccessRecorder(events), version }
}

fn summary(m: &CacheMetadata) -> Vec<(String, usize, u64)> {
    m.nodes.iter().map(|n| (n.node.clone(), n.validator.0.len(), n.version)).collect()
}

#[test]
fn a_node_whose_reads_changed_takes_the_new_version() {
    let mut m = CacheMetadata::new();
    m.nodes.push(cache("reads-data", vec![AccessEvent::AccessPersistent(DataId(1))], 1));
    m.nodes.push(cache("reads-document", vec![AccessEvent::OpenDocument(DocumentId(1))], 1));
    m.nodes.push(cache("reads-nothing", vec![], 1));

    m.update_cache_versions(&view(2), 5, &view(1));
    assert_eq!(
        summary(&m),
        vec![
            ("reads-data".to_string(), 1, 5),
            ("reads-document".to_string(), 1, 1),
            ("reads-nothing".to_string(), 0, 1),
        ]
    );
}

#[test]
fn another_project_invalidates_every_cache() {
    let mut m = CacheMetadata::new();
    m.nodes.push(cache("reads-nothing", vec![], 1));
    let mut other = view(1);
    other.uuid = 8;
    m.update_cache_versions(&other, 3, &view(1));
    assert_eq!(summary(&m), vec![("reads-nothing".to_string(), 0, 3)]);
}

#[test]
fn runs_replace_refresh_and_add_caches() {
    let mut m = CacheMetadata::new();
    m.nodes.push(cache("a", vec![AccessEvent::OpenDocument(DocumentId(1))], 1));
    m.nodes.push(cache("b", vec![AccessEvent::OpenDocument(DocumentId(1))], 1));
    m.nodes.push(cache("c", vec![AccessEvent::OpenDocument(DocumentId(1))], 1));

    let runs = vec![
        // `a` ran and read: it takes the new reads and version.
        run("a", vec![AccessEvent::AccessShared(DataId(1)), AccessEvent::AccessSession(DataId(1))], 4),
        // `b` was served from its cache and read nothing: it keeps its cache.
        // `c` did not run: it loses its cache.
        run("b", vec![], 4),
        // `d` is new, even without reads.
        run("d", vec![], 4),
        run("e", vec![AccessEvent::OpenDataByType(ModuleId(1))], 4),
        // A second run of `d` does not count.
        run("d", vec![AccessEvent::OpenDataByType(ModuleId(1))], 4),
    ];
    m.update_cache_metadata(&runs);
    assert_eq!(
        summary(&m),
        vec![
            ("a".to_string(), 2, 4),
            ("b".to_string(), 1, 1),
            ("d".to_string(), 0, 4),
            ("e".to_string(), 1, 4),
        ]
    );
}

#[test]
fn nodes_run_under_their_cached_version() {
    let mut m = CacheMetadata::new();
    m.nodes.push(cache("a", vec![], 2));
    assert_eq!(m.version_for(&"a".to_string(), 9), 2);
    assert_eq!(m.version_for(&"z".to_string(), 9), 9);
}

#[test]
fn a_run_brings_the_caches_up_to_the_new_version() {
    let mut vc = ViewportCache::default();
    // The first run has nothing to bring up to date.
    let m = vc.begin_run(view(1), 1);
    assert!(m.nodes.is_empty());
    assert_eq!(vc.version, 1);
    assert!(vc.metadata.is_none());
    let runs = vec![
        run("reads-data", vec![AccessEvent::AccessPersistent(DataId(1))], 1),
        run("reads-document", vec![AccessEvent::OpenDocument(DocumentId(1))], 1),
    ];
    vc.finish_run(m, &runs);
    assert_eq!(
        summary(vc.metadata.as_ref().unwrap()),
        vec![("reads-data".to_string(), 1, 1), ("reads-document".to_string(), 1, 1)]
    );

    // The same version again leaves the caches as they are.
    let m = vc.begin_run(view(2), 1);
    assert_eq!(summary(&m), vec![("reads-data".to_string(), 1, 1), ("reads-document".to_string(), 1, 1)]);
    // Both nodes are served from their caches and read nothing.
    vc.finish_run(m, &vec![run("reads-data", vec![], 1), run("reads-document", vec![], 1)]);

    // A new version: the node whose reads changed (from the view of the
    // previous run) takes it.
    let m = vc.begin_run(view(3), 2);
    assert_eq!(summary(&m), vec![("reads-data".to_string(), 1, 2), ("reads-document".to_string(), 1, 1)]);
    assert_eq!(vc.prev_project_view.as_ref().unwrap().data[0].1.persistent, vec![3]);
    assert_eq!(vc.version, 2);
}

#[test]
fn project_states_compare_by_version() {
    let v = view(1);
    let mut state = ProjectState::new(TrackedProjectView::new(&v), 3);
    assert_eq!(state.version(), 3);
    let copy = state.clone();
    assert!(matches!(copy, ProjectState::Cloned(3)));
    assert!(state == copy);
    assert!(ProjectState::Cloned(4) != copy);

    // Reads through the state are recorded.
    let tv = state.tracked_view();
    assert!(tv.open_document(DocumentId(1)).is_some());
    assert_eq!(tv.recorder.0, vec![AccessEvent::OpenDocument(DocumentId(1))]);
    assert_eq!(state.version(), 3);
}

fn pipeline_of(n: usize) -> ViewportPipeline {
    let mut p = ViewportPipeline::default();
    for _ in 0..n {
        p.add_plugin(PluginPosition::Initial, TypeId::of::<()>(), TypeId::of::<u32>()).unwrap();
    }
    p
}

#[test]
fn removed_node_loses_its_cache() {
    let mut pipeline = pipeline_of(2);
    let mut vc = ViewportCache::default();
    // Only the node of the last plugin runs.
    let m = vc.begin_scene(&pipeline, view(1), 1).unwrap();
    vc.finish_run(m, &vec![run("second", vec![AccessEvent::OpenDocument(DocumentId(1))], 1)]);
    assert_eq!(vc.metadata.as_ref().unwrap().nodes.len(), 1);

    // With the last plugin removed, the first one runs; the removed node's
    // cache goes.
    pipeline.remove_last_plugin();
    let m = vc.begin_scene(&pipeline, view(1), 2).unwrap();
    vc.finish_run(m, &vec![run("first", vec![AccessEvent::OpenDocument(DocumentId(1))], 2)]);
    assert_eq!(summary(vc.metadata.as_ref().unwrap()), vec![("first".to_string(), 1, 2)]);
}

#[test]
fn empty_pipeline_drops_the_caches() {
    let mut pipeline = pipeline_of(1);
    let mut vc = ViewportCache::default();
    let m = vc.begin_scene(&pipeline, view(1), 1).unwrap();
    vc.finish_run(m, &vec![run("only", vec![AccessEvent::OpenDocument(DocumentId(1))], 1)]);
    assert!(!vc.metadata.as_ref().unwrap().nodes.is_empty());

    pipeline.remove_last_plugin();
    assert!(matches!(vc.begin_scene(&pipeline, view(1), 2), Err(ExecuteError::EmptyPipeline)));
    assert!(vc.metadata.is_none());
    assert_eq!(vc.version, 2);
}

#[test]
fn test_compute_empty_pipeline() {
    let pipeline = ViewportPipeline::default();
    let project = ProjectView { uuid: 1, user: UserId::local(), data: vec![], documents: vec![] };
    let mut cache = ViewportCache::default();
    let result = cache.begin_scene(&pipeline, project, 1);
    assert!(matches!(result, Err(ExecuteError::EmptyPipeline)));
}

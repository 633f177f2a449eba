use project::access::{AccessEvent, AccessRecorder, CacheValidator, TrackedProjectView};
use project::view::{Document, ErasedData, ProjectView};
use project::{DataId, DocumentId, ModuleId, UserId};

const MINIMAL: ModuleId = ModuleId(1);
const TEST: ModuleId = ModuleId(2);

/// A snapshot with two documents and three data: `doc1` holds a minimal data
/// whose four sections all read `10`, `doc2` holds a test data, and one
/// minimal data belongs to no document.
struct Setup {
    view: ProjectView,
    doc1: DocumentId,
    doc1_minimal_data: DataId,
    doc2: DocumentId,
    doc2_test_data: DataId,
    orphan_minimal_data: DataId,
}

fn data(module: ModuleId, value: u8) -> ErasedData {
    ErasedData {
        module,
        persistent: vec![value],
        persistent_user: vec![value],
        session: vec![value],
        shared: vec![value],
    }
}

/// Ids are offset by `seed`, so that two setups share no id.
fn setup_project(seed: u128) -> Setup {
    let doc1 = DocumentId(seed + 1);
    let doc2 = DocumentId(seed + 2);
    let doc1_minimal_data = DataId(seed + 11);
    let doc2_test_data = DataId(seed + 12);
    let orphan_minimal_data = DataId(seed + 13);
    let view = ProjectView {
        uuid: seed + 100,
        user: UserId::local(),
        data: vec![
            (doc1_minimal_data, data(MINIMAL, 10)),
            (doc2_test_data, data(TEST, 0)),
            (orphan_minimal_data, data(MINIMAL, 0)),
        ],
        documents: vec![
            (doc1, Document { data: vec![doc1_minimal_data] }),
            (doc2, Document { data: vec![doc2_test_data] }),
        ],
    };
    Setup { view, doc1, doc1_minimal_data, doc2, doc2_test_data, orphan_minimal_data }
}

#[test]
fn unrelated_changes_keep_the_cache_valid() {
    let p = setup_project(0);
    let mut tv = TrackedProjectView::new(&p.view);
    let _ = tv.open_data_by_id(p.doc1_minimal_data, MINIMAL).unwrap().persistent();
    let _ = tv.open_document(p.doc2).unwrap().open_data_by_id(p.doc2_test_data, TEST);
    let validator = tv.recorder.freeze();

    // The session section of the read data and a data nobody read change.
    let mut new_view = p.view.clone();
    for (id, d) in new_view.data.iter_mut() {
        if *id == p.doc1_minimal_data {
            d.session = vec![99];
        }
        if *id == p.orphan_minimal_data {
            d.persistent = vec![1, 2, 3];
        }
    }
    assert!(validator.is_cache_valid(&p.view, &new_view));

    // The persistent section that was read changes.
    for (id, d) in new_view.data.iter_mut() {
        if *id == p.doc1_minimal_data {
            d.persistent = vec![11];
        }
    }
    assert!(!validator.is_cache_valid(&p.view, &new_view));
}

#[test]
fn module_change_of_read_data_invalidates() {
    let p = setup_project(0);
    let mut tv = TrackedProjectView::new(&p.view);
    assert!(tv.open_data_by_id(p.orphan_minimal_data, MINIMAL).is_some());
    let validator = tv.recorder.freeze();

    let mut new_view = p.view.clone();
    for (id, d) in new_view.data.iter_mut() {
        if *id == p.orphan_minimal_data {
            d.module = TEST;
        }
    }
    assert!(!validator.is_cache_valid(&p.view, &new_view));
}

#[test]
fn freeze_hands_out_the_log_and_empties_the_recorder() {
    let mut recorder = AccessRecorder(Vec::new());
    recorder.track(AccessEvent::OpenDocument(DocumentId(1)));
    recorder.track(AccessEvent::AccessShared(DataId(2)));
    let validator: CacheValidator = recorder.freeze();
    assert_eq!(
        validator.0,
        vec![AccessEvent::OpenDocument(DocumentId(1)), AccessEvent::AccessShared(DataId(2))]
    );
    assert!(recorder.0.is_empty());
    assert!(!recorder.freeze().was_accessed());
}

#[test]
fn reads_through_the_tracked_view_are_recorded_in_order() {
    let p = setup_project(0);
    let mut tv = TrackedProjectView::new(&p.view);
    {
        let mut doc = tv.open_document(p.doc2).unwrap();
        assert_eq!(doc.open_data_by_type(TEST), vec![p.doc2_test_data]);
        let mut data = doc.open_data_by_id(p.doc2_test_data, TEST).unwrap();
        let _ = data.persistent_user();
        let _ = data.shared_data();
    }
    let _ = tv.open_data_by_type(TEST);
    let mut data = tv.open_data_by_id(p.doc2_test_data, TEST).unwrap();
    let _ = data.session_data();
    let _ = data.persistent();
    assert_eq!(
        tv.recorder.0,
        vec![
            AccessEvent::OpenDocument(p.doc2),
            AccessEvent::OpenDocumentDataByType(p.doc2, TEST),
            AccessEvent::OpenDocumentDataById(p.doc2, p.doc2_test_data),
            AccessEvent::AccessPersistentUser(p.doc2_test_data),
            AccessEvent::AccessShared(p.doc2_test_data),
            AccessEvent::OpenDataByType(TEST),
            AccessEvent::OpenDataById(p.doc2_test_data),
            AccessEvent::AccessSession(p.doc2_test_data),
            AccessEvent::AccessPersistent(p.doc2_test_data),
        ]
    );
}

#[test]
fn view_lookups_follow_the_snapshot() {
    let p = setup_project(0);
    assert_eq!(p.view.open_data_by_type(MINIMAL), vec![p.doc1_minimal_data, p.orphan_minimal_data]);
    assert!(p.view.open_data_by_id(p.doc2_test_data, MINIMAL).is_none());
    assert_eq!(p.view.open_data_by_id(p.doc2_test_data, TEST).unwrap().module, TEST);
    assert_eq!(p.view.open_document(p.doc1).unwrap().data, vec![p.doc1_minimal_data]);
    assert!(p.view.open_document(DocumentId(77)).is_none());
    let ids = vec![p.doc2_test_data, DataId(999), p.orphan_minimal_data, p.doc1_minimal_data];
    assert_eq!(p.view.data_of_type_among(&ids, MINIMAL), vec![p.orphan_minimal_data, p.doc1_minimal_data]);
}

#[test]
fn data_outside_the_document_is_not_opened_through_it() {
    let p = setup_project(0);
    let mut tv = TrackedProjectView::new(&p.view);
    {
        let mut doc = tv.open_document(p.doc1).unwrap();
        assert!(doc.open_data_by_id(p.orphan_minimal_data, MINIMAL).is_none());
        assert!(doc.open_data_by_id(p.doc1_minimal_data, TEST).is_none());
        assert!(doc.open_data_by_type(TEST).is_empty());
    }
    assert!(tv.open_document(DocumentId(77)).is_none());
    assert_eq!(
        tv.recorder.0,
        vec![
            AccessEvent::OpenDocument(p.doc1),
            AccessEvent::OpenDocumentDataById(p.doc1, p.orphan_minimal_data),
            AccessEvent::OpenDocumentDataById(p.doc1, p.doc1_minimal_data),
            AccessEvent::OpenDocumentDataByType(p.doc1, TEST),
            AccessEvent::OpenDocument(DocumentId(77)),
        ]
    );
}

#[test]
fn reading_all_data_of_a_module_ignores_the_order_of_the_data() {
    let p = setup_project(0);
    let validator = CacheValidator(vec![AccessEvent::OpenDataByType(MINIMAL)]);

    // The same data, held in another order.
    let mut reordered = p.view.clone();
    reordered.data.reverse();
    assert!(validator.is_cache_valid(&p.view, &reordered));

    // One more minimal data.
    let mut grown = p.view.clone();
    grown.data.push((DataId(77), data(MINIMAL, 0)));
    assert!(!validator.is_cache_valid(&p.view, &grown));
}

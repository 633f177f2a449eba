use project::view::DataCompare;
use project::{
    ChangeBuilder, DataId, DocumentId, ModuleId, ModuleRegistry, ValueModules,
    Path, Project, ProjectView, Section, TrackedProjectView,
};

const MINIMAL: ModuleId = ModuleId(1);
const TEST: ModuleId = ModuleId(2);

fn value(v: i32) -> Vec<u8> {
    v.to_le_bytes().to_vec()
}

fn num(bytes: &[u8]) -> i32 {
    i32::from_le_bytes(bytes.try_into().unwrap())
}

fn path(p: &str) -> Path {
    Path::new(p.to_string()).unwrap()
}

/// A project with `/doc1` holding minimal data whose four sections are set
/// to `10`, `/doc2` holding test data, and minimal data in no document.
struct ProjectSetup {
    reg: ModuleRegistry,
    project: Project,
    doc1: DocumentId,
    doc1_minimal_data: DataId,
    doc2: DocumentId,
    doc2_test_data: DataId,
    orphan_minimal_data: DataId,
}

impl ProjectSetup {
    fn view(&self) -> ProjectView {
        self.project.create_view(&self.reg, &ValueModules).unwrap()
    }

    fn apply(&mut self, cb: ChangeBuilder) {
        self.project.apply_changes(cb, &self.reg, &ValueModules).unwrap();
    }
}

fn setup_project() -> ProjectSetup {
    let mut reg = ModuleRegistry::new();
    reg.register(TEST);
    reg.register(MINIMAL);
    let mut project = Project::new();

    let mut cb = ChangeBuilder::new();
    let view = project.create_view(&reg, &ValueModules).unwrap();
    let doc1 = view.create_document(&mut cb, path("/doc1"));
    let doc2 = view.create_document(&mut cb, path("/doc2"));
    project.apply_changes(cb, &reg, &ValueModules).unwrap();

    let mut cb = ChangeBuilder::new();
    let view = project.create_view(&reg, &ValueModules).unwrap();
    let doc1_minimal_data = view.document_view(doc1).unwrap().create_data(&mut cb, MINIMAL);
    let doc2_test_data = view.document_view(doc2).unwrap().create_data(&mut cb, TEST);
    let orphan_minimal_data = view.create_data(&mut cb, MINIMAL);
    project.apply_changes(cb, &reg, &ValueModules).unwrap();

    let mut cb = ChangeBuilder::new();
    let view = project.create_view(&reg, &ValueModules).unwrap();
    let minimal = view.data_view(doc1_minimal_data, MINIMAL).unwrap();
    minimal.apply_persistent(value(10), &mut cb);
    minimal.apply_persistent_user(value(10), &mut cb);
    minimal.apply_session(value(10), &mut cb);
    minimal.apply_shared(value(10), &mut cb);
    project.apply_changes(cb, &reg, &ValueModules).unwrap();

    ProjectSetup { reg, project, doc1, doc1_minimal_data, doc2, doc2_test_data, orphan_minimal_data }
}

/// A project with one empty document.
fn project_with_document() -> (Project, ModuleRegistry, DocumentId) {
    let mut reg = ModuleRegistry::new();
    reg.register(TEST);
    reg.register(MINIMAL);
    let mut project = Project::new();
    let mut cb = ChangeBuilder::new();
    let view = project.create_view(&reg, &ValueModules).unwrap();
    let doc = view.create_document(&mut cb, path("/doc"));
    project.apply_changes(cb, &reg, &ValueModules).unwrap();
    (project, reg, doc)
}

/// The ids of the data of `module` in document `doc`.
fn in_document(v: &ProjectView, doc: DocumentId, module: ModuleId) -> Vec<DataId> {
    v.document_view(doc).unwrap().open_data_by_type(module)
}

/// Whether document `doc` holds data `id` of `module`.
fn document_has(v: &ProjectView, doc: DocumentId, id: DataId, module: ModuleId) -> bool {
    v.document_view(doc).unwrap().open_data_by_id(id, module).is_some()
}

#[test]
fn setup_sets_all_four_sections() {
    let p = setup_project();
    let v = p.view();
    assert!(v.open_data_by_id(p.doc2_test_data, TEST).is_some());
    let min = v.open_data_by_id(p.doc1_minimal_data, MINIMAL).unwrap();
    assert_eq!(num(&min.persistent), 10);
    assert_eq!(num(&min.persistent_user), 10);
    assert_eq!(num(&min.session), 10);
    assert_eq!(num(&min.shared), 10);
}

#[test]
fn test_open_data_by_id() {
    let mut reg = ModuleRegistry::new();
    reg.register(MINIMAL);
    let mut project = Project::new();
    let mut cb = ChangeBuilder::new();
    let view = project.create_view(&reg, &ValueModules).unwrap();
    let data_id = view.create_data(&mut cb, MINIMAL);
    project.apply_changes(cb, &reg, &ValueModules).unwrap();
    let v = project.create_view(&reg, &ValueModules).unwrap();
    assert!(v.open_data_by_id(data_id, MINIMAL).is_some());
}

#[test]
fn data_management_test_open_data_by_type() {
    let mut reg = ModuleRegistry::new();
    reg.register(MINIMAL);
    reg.register(TEST);
    let mut project = Project::new();
    let mut cb = ChangeBuilder::new();
    let view = project.create_view(&reg, &ValueModules).unwrap();
    view.create_data(&mut cb, MINIMAL);
    view.create_data(&mut cb, MINIMAL);
    view.create_data(&mut cb, TEST);
    project.apply_changes(cb, &reg, &ValueModules).unwrap();
    let v = project.create_view(&reg, &ValueModules).unwrap();
    assert_eq!(v.open_data_by_type(MINIMAL).len(), 2);
    assert_eq!(v.open_data_by_type(TEST).len(), 1);
}

#[test]
fn test_open_data_wrong_module() {
    let mut reg = ModuleRegistry::new();
    reg.register(MINIMAL);
    let mut project = Project::new();
    let mut cb = ChangeBuilder::new();
    let view = project.create_view(&reg, &ValueModules).unwrap();
    let data_id = view.create_data(&mut cb, MINIMAL);
    project.apply_changes(cb, &reg, &ValueModules).unwrap();
    let v = project.create_view(&reg, &ValueModules).unwrap();
    assert!(v.open_data_by_id(data_id, TEST).is_none());
}

#[test]
fn test_open_data_in_document() {
    let p = setup_project();
    let v = p.view();
    assert!(document_has(&v, p.doc1, p.doc1_minimal_data, MINIMAL));
    assert_eq!(in_document(&v, p.doc1, MINIMAL).len(), 1);
}

#[test]
fn data_management_test_open_data_in_wrong_document() {
    let p = setup_project();
    let v = p.view();
    assert!(!document_has(&v, p.doc2, p.doc1_minimal_data, MINIMAL));
    assert_eq!(in_document(&v, p.doc2, MINIMAL).len(), 0);
}

#[test]
fn test_delete_document() {
    let mut p = setup_project();
    let v = p.view();
    let mut cb = ChangeBuilder::new();
    v.document_view(p.doc1).unwrap().delete(&mut cb);
    p.apply(cb);
    let v = p.view();

    assert!(v.open_document(p.doc1).is_none());
    assert!(v.open_data_by_id(p.doc1_minimal_data, MINIMAL).is_none());
    assert!(v.open_document(p.doc2).is_some());
    assert!(v.open_data_by_id(p.doc2_test_data, TEST).is_some());
    assert!(v.open_data_by_id(p.orphan_minimal_data, MINIMAL).is_some());
}

#[test]
fn test_delete_data() {
    let mut p = setup_project();
    let v = p.view();
    let minimal_data_count = v.open_data_by_type(MINIMAL).len();
    let test_data_count = v.open_data_by_type(TEST).len();

    let mut cb = ChangeBuilder::new();
    v.data_view(p.doc1_minimal_data, MINIMAL).unwrap().delete(&mut cb);
    p.apply(cb);
    let v = p.view();

    assert!(v.open_data_by_id(p.doc1_minimal_data, MINIMAL).is_none());
    assert_eq!(minimal_data_count - 1, v.open_data_by_type(MINIMAL).len());
    assert_eq!(test_data_count, v.open_data_by_type(TEST).len());
}

#[test]
fn test_move_data_between_documents() {
    let mut p = setup_project();
    let v = p.view();
    let mut cb = ChangeBuilder::new();
    v.data_view(p.doc2_test_data, TEST).unwrap().move_to_document(p.doc1, &mut cb);
    p.apply(cb);
    let v = p.view();

    assert!(!document_has(&v, p.doc2, p.doc2_test_data, TEST));
    assert!(document_has(&v, p.doc1, p.doc2_test_data, TEST));
}

#[test]
fn test_make_orphan() {
    let mut p = setup_project();
    let v = p.view();
    let mut cb = ChangeBuilder::new();
    v.data_view(p.doc1_minimal_data, MINIMAL).unwrap().make_orphan(&mut cb);
    p.apply(cb);
    let v = p.view();

    assert!(!document_has(&v, p.doc1, p.doc1_minimal_data, MINIMAL));
    assert!(v.open_data_by_id(p.doc1_minimal_data, MINIMAL).is_some());
}

#[test]
fn test_attempt_open_data_with_incorrect_module() {
    let (mut project, reg, doc) = project_with_document();
    let mut cb = ChangeBuilder::new();
    let v = project.create_view(&reg, &ValueModules).unwrap();
    let data = v.document_view(doc).unwrap().create_data(&mut cb, TEST);
    project.apply_changes(cb, &reg, &ValueModules).unwrap();
    let v = project.create_view(&reg, &ValueModules).unwrap();
    assert!(document_has(&v, doc, data, TEST));
    assert!(!document_has(&v, doc, data, MINIMAL));
}

#[test]
fn test_open_nonexistent_data() {
    let (project, reg, doc) = project_with_document();
    let v = project.create_view(&reg, &ValueModules).unwrap();
    assert!(!document_has(&v, doc, DataId::new_v4(), TEST));
}

#[test]
fn data_opening_test_open_data_by_type() {
    let (mut project, reg, doc) = project_with_document();
    let mut cb = ChangeBuilder::new();
    let v = project.create_view(&reg, &ValueModules).unwrap();
    let d = v.document_view(doc).unwrap();
    let _data1 = d.create_data(&mut cb, TEST);
    let _data2 = d.create_data(&mut cb, TEST);
    let _other = d.create_data(&mut cb, MINIMAL);
    project.apply_changes(cb, &reg, &ValueModules).unwrap();
    let v = project.create_view(&reg, &ValueModules).unwrap();
    assert_eq!(in_document(&v, doc, TEST).len(), 2);
}

#[test]
fn data_opening_test_open_data_in_wrong_document() {
    let (mut project, reg, doc1) = project_with_document();
    let mut cb = ChangeBuilder::new();
    let v = project.create_view(&reg, &ValueModules).unwrap();
    let data_in_doc1 = v.document_view(doc1).unwrap().create_data(&mut cb, TEST);
    let doc2 = v.create_document(&mut cb, path("/doc2"));
    project.apply_changes(cb, &reg, &ValueModules).unwrap();
    let v = project.create_view(&reg, &ValueModules).unwrap();
    assert!(document_has(&v, doc1, data_in_doc1, TEST));
    assert!(!document_has(&v, doc2, data_in_doc1, TEST));
}

#[test]
fn test_attempt_open_nonexistent_document() {
    let (project, reg, _) = project_with_document();
    let v = project.create_view(&reg, &ValueModules).unwrap();
    assert!(v.open_document(DocumentId::new_v4()).is_none());
}

#[test]
fn test_open_document() {
    let (project, reg, doc) = project_with_document();
    let v = project.create_view(&reg, &ValueModules).unwrap();
    assert!(v.open_document(doc).is_some());
}

#[test]
fn test_tracked_view_not_accessed() {
    let p = setup_project();
    let view = p.view();
    let mut tv = TrackedProjectView::new(&view);
    let validator = tv.recorder.freeze();
    assert!(!validator.was_accessed());
}

#[test]
fn test_tracked_view_basic_access() {
    let p = setup_project();
    let view = p.view();
    let mut tv = TrackedProjectView::new(&view);
    assert!(tv.open_data_by_id(p.doc1_minimal_data, MINIMAL).is_some());
    let validator = tv.recorder.freeze();
    assert!(validator.was_accessed());
}

#[test]
fn test_document_operations() {
    let p = setup_project();
    let view = p.view();
    let mut tv = TrackedProjectView::new(&view);

    let mut cb = ChangeBuilder::new();
    let _new_doc = tv.create_document(&mut cb, path("/new_doc"));

    {
        let mut doc = tv.open_document(p.doc1).unwrap();
        let data_by_type = doc.open_data_by_type(MINIMAL);
        assert!(!data_by_type.is_empty());

        let mut data = doc.open_data_by_id(p.doc1_minimal_data, MINIMAL).unwrap();
        assert_eq!(num(data.session_data()), 10);
    }

    let validator = tv.recorder.freeze();
    assert!(validator.was_accessed());
}

#[test]
fn test_data_operations() {
    let p = setup_project();
    let view = p.view();
    let mut tv = TrackedProjectView::new(&view);
    assert!(tv.open_data_by_id(p.doc1_minimal_data, MINIMAL).is_some());
    assert!(!tv.open_data_by_type(MINIMAL).is_empty());
    let validator = tv.recorder.freeze();
    assert!(validator.was_accessed());
}

#[test]
fn test_different_project_validation() {
    let p1 = setup_project();
    let p2 = setup_project();
    let view1 = p1.view();
    let view2 = p2.view();
    let mut tv = TrackedProjectView::new(&view1);
    {
        let _doc = tv.open_document(p1.doc1);
    }
    let validator = tv.recorder.freeze();
    assert!(!validator.is_cache_valid(&view1, &view2));
}

#[test]
fn test_cache_validation_open_data_by_type() {
    let mut p = setup_project();
    let view = p.view();
    let mut tv = TrackedProjectView::new(&view);
    assert!(!tv.open_data_by_type(MINIMAL).is_empty());
    let validator = tv.recorder.freeze();
    assert!(validator.is_cache_valid(&view, &view));

    let mut cb = ChangeBuilder::new();
    tv.create_data(&mut cb, MINIMAL);
    p.apply(cb);
    let new_view = p.view();
    assert!(!validator.is_cache_valid(&view, &new_view));
}

#[test]
fn test_cache_validation_document_data_by_id() {
    let mut p = setup_project();
    let view = p.view();
    let mut tv = TrackedProjectView::new(&view);
    let mut cb = ChangeBuilder::new();
    {
        let mut doc = tv.open_document(p.doc1).unwrap();
        let mut data = doc.open_data_by_id(p.doc1_minimal_data, MINIMAL).unwrap();
        let _session = data.session_data();
        // Move the data to a new document.
        let new_doc = view.create_document(&mut cb, path("/new_doc"));
        data.move_to_document(new_doc, &mut cb);
    }
    let validator = tv.recorder.freeze();
    assert!(validator.is_cache_valid(&view, &view));

    p.apply(cb);
    let new_view = p.view();
    assert!(!validator.is_cache_valid(&view, &new_view));
}

#[test]
fn test_cache_validation_document_data_by_type() {
    let mut p = setup_project();
    let view = p.view();
    let mut tv = TrackedProjectView::new(&view);
    let mut cb = ChangeBuilder::new();
    {
        let mut doc = tv.open_document(p.doc1).unwrap();
        let data_list = doc.open_data_by_type(MINIMAL);
        assert!(!data_list.is_empty());
        // Add new data of the same type to the document.
        let _data = doc.create_data(&mut cb, MINIMAL);
    }
    let validator = tv.recorder.freeze();
    assert!(validator.is_cache_valid(&view, &view));

    p.apply(cb);
    let new_view = p.view();
    assert!(!validator.is_cache_valid(&view, &new_view));
}

#[test]
fn test_cache_validation_complex_scenario() {
    let mut p = setup_project();
    let view = p.view();
    let mut tv = TrackedProjectView::new(&view);
    let _global = tv.open_data_by_type(MINIMAL);
    let mut cb = ChangeBuilder::new();
    {
        let mut doc = tv.open_document(p.doc1).unwrap();
        let _doc_data = doc.open_data_by_type(MINIMAL);
        let mut data = doc.open_data_by_id(p.doc1_minimal_data, MINIMAL).unwrap();
        let _session = data.session_data();

        // Make various modifications.
        let _new_data_id = view.create_data(&mut cb, MINIMAL);
        let new_doc = view.create_document(&mut cb, path("/new_doc"));
        data.move_to_document(new_doc, &mut cb);
        data.apply_session(value(42), &mut cb);
    }
    let validator = tv.recorder.freeze();
    assert!(validator.is_cache_valid(&view, &view));

    p.apply(cb);
    let new_view = p.view();
    assert!(!validator.is_cache_valid(&view, &new_view));
}

#[test]
fn test_cache_validation_edge_cases() {
    let mut p1 = setup_project();
    let p2 = setup_project();
    let view = p1.view();
    let mut tv = TrackedProjectView::new(&view);
    let mut cb = ChangeBuilder::new();
    {
        let _missing_doc = tv.open_document(p2.doc1);
    }
    {
        let mut doc = tv.open_document(p1.doc1).unwrap();
        let _missing_data = doc.open_data_by_id(p2.doc1_minimal_data, MINIMAL);
        let _empty_list = doc.open_data_by_type(MINIMAL);
        let _data = doc.create_data(&mut cb, MINIMAL);
    }
    let validator = tv.recorder.freeze();

    p1.apply(cb);
    let new_view = p1.view();
    assert!(!validator.is_cache_valid(&view, &new_view));
}

#[test]
fn a_session_change_keeps_a_persistent_cache_valid() {
    let mut p = setup_project();
    let view = p.view();
    let mut tv = TrackedProjectView::new(&view);
    assert_eq!(num(tv.open_data_by_id(p.doc1_minimal_data, MINIMAL).unwrap().persistent()), 10);
    let validator = tv.recorder.freeze();

    let mut cb = ChangeBuilder::new();
    view.data_view(p.doc1_minimal_data, MINIMAL).unwrap().apply_session(value(3), &mut cb);
    p.apply(cb);
    assert!(validator.is_cache_valid(&view, &p.view()));

    let mut cb = ChangeBuilder::new();
    view.data_view(p.doc1_minimal_data, MINIMAL).unwrap().apply_persistent(value(3), &mut cb);
    p.apply(cb);
    assert!(!validator.is_cache_valid(&view, &p.view()));
}

#[test]
fn sections_compare_by_module_and_content() {
    let p = setup_project();
    let v = p.view();
    let a = v.open_data_by_id(p.doc1_minimal_data, MINIMAL).unwrap();
    let b = v.open_data_by_id(p.orphan_minimal_data, MINIMAL).unwrap();
    let c = v.open_data_by_id(p.doc2_test_data, TEST).unwrap();
    assert!(a.persistent_eq(a));
    assert!(!a.persistent_eq(b));
    assert!(!a.session_eq(b));
    // Same default content, other module.
    assert!(b.shared_eq(b));
    assert!(!b.shared_eq(c));
    assert!(b.persistent_user_eq(b));
}

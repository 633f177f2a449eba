use project::{
    BranchId, ChangeBuilder, DataId, DocumentView, ModuleId, ModuleRegistry, ValueModules,
    Path, Project, ProjectView, Section,
};

const MINIMAL: ModuleId = ModuleId(1);

fn value(v: i32) -> Vec<u8> {
    v.to_le_bytes().to_vec()
}

fn num(bytes: &[u8]) -> i32 {
    i32::from_le_bytes(bytes.try_into().unwrap())
}

fn registry() -> ModuleRegistry {
    let mut reg = ModuleRegistry::new();
    reg.register(MINIMAL);
    reg
}

fn view(project: &Project, reg: &ModuleRegistry) -> ProjectView {
    project.create_view(reg, &ValueModules).unwrap()
}

/// A project with document `/d` holding one minimal data.
fn setup(project: &mut Project, reg: &ModuleRegistry) -> DataId {
    let mut cb = ChangeBuilder::new();
    let v = view(project, reg);
    let doc = v.create_document(&mut cb, Path::new("/d".to_string()).unwrap());
    project.apply_changes(cb, reg, &ValueModules).unwrap();

    let mut cb = ChangeBuilder::new();
    let v = view(project, reg);
    let data_id = v.document_view(doc).unwrap().create_data(&mut cb, MINIMAL);
    project.apply_changes(cb, reg, &ValueModules).unwrap();
    data_id
}

fn edit(project: &mut Project, reg: &ModuleRegistry, data_id: DataId, v: i32) {
    let mut cb = ChangeBuilder::new();
    let pv = view(project, reg);
    pv.data_view(data_id, MINIMAL).unwrap().apply_persistent(value(v), &mut cb);
    project.apply_changes(cb, reg, &ValueModules).unwrap();
}

fn read(project: &Project, reg: &ModuleRegistry, data_id: DataId) -> i32 {
    num(&view(project, reg).open_data_by_id(data_id, MINIMAL).unwrap().persistent)
}

fn read_num(project: &Project, reg: &ModuleRegistry, branch: BranchId, data_id: DataId) -> i32 {
    let v = project.create_view_at(reg, &ValueModules, branch, u64::MAX).unwrap();
    num(&v.open_data_by_id(data_id, MINIMAL).unwrap().persistent)
}

/// Edits one integer, where `0` stands for an undo and `-1` for a redo.
fn run_sequence(seq: &[i32]) -> i32 {
    let reg = registry();
    let mut project = Project::new();
    let data_id = setup(&mut project, &reg);
    // A fresh session, so that undo and redo cannot reach the setup.
    project.reset_session();
    for &v in seq {
        match v {
            0 => project.undo(),
            -1 => project.redo(),
            n => edit(&mut project, &reg, data_id, n),
        }
    }
    read(&project, &reg, data_id)
}

/// A replica of `p`: the same project, with all its entries.
fn replica_of(p: &Project) -> Project {
    let mut r = Project::new();
    r.uuid = p.uuid;
    r.merge_remote(p, &registry()).unwrap();
    r
}

#[test]
fn trace_simple_undo_after_two_edits() {
    assert_eq!(run_sequence(&[6, 7, 8, 0, 15]), 15);
}

#[test]
fn trace_three_undos_after_branchy_history() {
    assert_eq!(run_sequence(&[6, 7, 8, 0, 15, 0, 0]), 6);
}

#[test]
fn trace_redo_after_new_edit_brings_back_undone() {
    assert_eq!(run_sequence(&[6, 0, 7, -1]), 7);
}

#[test]
fn trace_undo_after_redo_targets_max_active() {
    assert_eq!(run_sequence(&[6, 0, 7, -1, 0]), 6);
}

#[test]
fn undo_on_empty_active_is_noop() {
    assert_eq!(run_sequence(&[0]), 0);
}

#[test]
fn redo_on_empty_buffer_is_noop() {
    assert_eq!(run_sequence(&[5, -1]), 5);
}

#[test]
fn edits_on_unmerged_branch_invisible_from_main() {
    let reg = registry();
    let mut project = Project::new();
    let data_id = setup(&mut project, &reg);

    let main = project.current_branch();
    let feature = BranchId::new();
    project.merge_branch(main, feature);

    project.switch_branch(feature);
    edit(&mut project, &reg, data_id, 42);

    assert_eq!(read_num(&project, &reg, main, data_id), 0);
    assert_eq!(read_num(&project, &reg, feature, data_id), 42);
}

#[test]
fn merge_branch_imports_snapshot() {
    let reg = registry();
    let mut project = Project::new();
    let main = project.current_branch();
    let feature = BranchId::new();
    let data_id = setup(&mut project, &reg);

    project.merge_branch(main, feature);
    project.switch_branch(feature);
    edit(&mut project, &reg, data_id, 7);

    project.switch_branch(main);
    project.merge_branch(feature, main);

    assert_eq!(read_num(&project, &reg, main, data_id), 7);
}

#[test]
fn edits_after_merge_not_visible_until_re_merge() {
    let reg = registry();
    let mut project = Project::new();
    let main = project.current_branch();
    let feature = BranchId::new();
    let data_id = setup(&mut project, &reg);

    project.merge_branch(main, feature);
    project.switch_branch(feature);
    edit(&mut project, &reg, data_id, 5);

    project.switch_branch(main);
    project.merge_branch(feature, main);

    project.switch_branch(feature);
    edit(&mut project, &reg, data_id, 11);

    assert_eq!(read_num(&project, &reg, main, data_id), 5);

    project.switch_branch(main);
    project.merge_branch(feature, main);
    assert_eq!(read_num(&project, &reg, main, data_id), 11);
}

#[test]
fn undo_of_merge_branch_hides_imported_ops() {
    let reg = registry();
    let mut project = Project::new();
    let main = project.current_branch();
    let feature = BranchId::new();
    let data_id = setup(&mut project, &reg);

    project.merge_branch(main, feature);
    project.switch_branch(feature);
    edit(&mut project, &reg, data_id, 9);

    project.switch_branch(main);
    project.reset_session();
    project.merge_branch(feature, main);
    assert_eq!(read_num(&project, &reg, main, data_id), 9);

    project.undo();
    assert_eq!(read_num(&project, &reg, main, data_id), 0);

    project.redo();
    assert_eq!(read_num(&project, &reg, main, data_id), 9);
}

#[test]
fn multi_hop_merge_respects_per_hop_snapshot_order() {
    let reg = registry();
    let mut project = Project::new();
    let main = project.current_branch();
    let feature = BranchId::new();
    let hot = BranchId::new();
    let data_id = setup(&mut project, &reg);

    project.switch_branch(feature);
    project.merge_branch(main, feature);

    project.switch_branch(hot);
    project.merge_branch(main, hot);
    edit(&mut project, &reg, data_id, 42);

    project.switch_branch(main);
    project.merge_branch(feature, main);

    project.switch_branch(feature);
    project.merge_branch(hot, feature);

    assert_eq!(read_num(&project, &reg, main, data_id), 0);
    assert_eq!(read_num(&project, &reg, feature, data_id), 42);
}

#[test]
fn create_view_at_returns_historical_state() {
    let reg = registry();
    let mut project = Project::new();
    let data_id = setup(&mut project, &reg);

    let mut points: Vec<(i32, u64)> = Vec::new();
    for v in [3, 7, 21] {
        edit(&mut project, &reg, data_id, v);
        let t = project.log.iter().map(|e| e.lamport).max().unwrap();
        points.push((v, t));
    }

    let branch = project.current_branch();
    for (v, t) in &points {
        let view = project.create_view_at(&reg, &ValueModules, branch, *t).unwrap();
        assert_eq!(num(&view.open_data_by_id(data_id, MINIMAL).unwrap().persistent), *v);
    }

    let pre_edit_lamport = points[0].1 - 1;
    let view = project.create_view_at(&reg, &ValueModules, branch, pre_edit_lamport).unwrap();
    assert_eq!(num(&view.open_data_by_id(data_id, MINIMAL).unwrap().persistent), 0);
}

#[test]
fn lamport_advances_on_local_apply() {
    let reg = registry();
    let mut project = Project::new();

    let mut cb = ChangeBuilder::new();
    let v = view(&project, &reg);
    let _ = v.create_document(&mut cb, Path::new("/a".to_string()).unwrap());
    project.apply_changes(cb, &reg, &ValueModules).unwrap();

    let mut cb = ChangeBuilder::new();
    let v = view(&project, &reg);
    let _ = v.create_document(&mut cb, Path::new("/b".to_string()).unwrap());
    project.apply_changes(cb, &reg, &ValueModules).unwrap();

    let lamports: Vec<u64> = project.log.iter().map(|e| e.lamport).collect();
    assert_eq!(lamports, vec![0, 1, 2]);
}

#[test]
fn three_replicas_in_cycle_all_converge() {
    let reg = registry();
    let mut a = Project::new();
    let data_id = setup(&mut a, &reg);
    let mut b = replica_of(&a);
    let mut c = replica_of(&a);

    edit(&mut a, &reg, data_id, 1);
    edit(&mut b, &reg, data_id, 2);
    edit(&mut c, &reg, data_id, 3);

    a.merge_remote(&b, &reg).unwrap();
    b.merge_remote(&c, &reg).unwrap();
    c.merge_remote(&a, &reg).unwrap();
    a.merge_remote(&c, &reg).unwrap();
    b.merge_remote(&a, &reg).unwrap();

    let va = read(&a, &reg, data_id);
    let vb = read(&b, &reg, data_id);
    let vc = read(&c, &reg, data_id);
    assert_eq!(va, vb);
    assert_eq!(vb, vc);
}

#[test]
fn concurrent_edits_lww_by_lamport_session() {
    let reg = registry();
    let mut a = Project::new();
    let data_id = setup(&mut a, &reg);

    a.reset_session();
    let mut b = replica_of(&a);

    edit(&mut a, &reg, data_id, 100);
    edit(&mut b, &reg, data_id, 200);

    let a_session = a.current_session().expect("a has a session after edit");
    let b_session = b.current_session().expect("b has a session after edit");

    a.merge_remote(&b, &reg).unwrap();
    b.merge_remote(&a, &reg).unwrap();

    let va = read(&a, &reg, data_id);
    let vb = read(&b, &reg, data_id);
    assert_eq!(va, vb, "both replicas converge");
    assert!(va == 100 || va == 200, "converged value must be one of the two edits");

    let expected = if a_session > b_session { 100 } else { 200 };
    assert_eq!(va, expected, "LWW winner determined by (lamport, session_id)");
}

#[test]
fn session_a_undo_does_not_affect_session_b() {
    let reg = registry();
    let mut a = Project::new();
    let data_id = setup(&mut a, &reg);
    let mut b = replica_of(&a);

    edit(&mut a, &reg, data_id, 5);
    edit(&mut b, &reg, data_id, 9);

    a.undo();
    assert_eq!(read(&a, &reg, data_id), 0, "A's undo should revert its own edit");

    a.merge_remote(&b, &reg).unwrap();
    b.merge_remote(&a, &reg).unwrap();

    assert_eq!(read(&a, &reg, data_id), 9);
    assert_eq!(read(&b, &reg, data_id), 9);
}

#[test]
fn view_of_a_new_project_is_empty() {
    let reg = registry();
    let project = Project::new();
    let v = view(&project, &reg);
    assert!(v.documents.is_empty());
    assert!(v.data.is_empty());
    assert_eq!(v.uuid, project.uuid);
}

#[test]
fn unknown_module_stops_the_view() {
    let mut reg = registry();
    let mut project = Project::new();
    let data_id = setup(&mut project, &reg);
    let _ = data_id;
    reg = ModuleRegistry::new();
    let err = project.create_view(&reg, &ValueModules).unwrap_err();
    assert_eq!(err, project::ProjectViewError::UnknownModule(MINIMAL));
}

#[test]
fn document_lifecycle() {
    let reg = registry();
    let mut project = Project::new();
    let data_id = setup(&mut project, &reg);
    let v = view(&project, &reg);
    assert_eq!(v.documents.len(), 1);
    let doc = v.documents[0].0;
    assert_eq!(v.open_document(doc).unwrap().data, vec![data_id]);

    // Orphan data, then a second document that takes it.
    let mut cb = ChangeBuilder::new();
    let orphan = v.create_data(&mut cb, MINIMAL);
    let doc2 = v.create_document(&mut cb, Path::new("/e".to_string()).unwrap());
    project.apply_changes(cb, &reg, &ValueModules).unwrap();
    let v = view(&project, &reg);
    assert!(v.open_data_by_id(orphan, MINIMAL).is_some());
    assert_eq!(v.open_document(doc2).unwrap().data, Vec::<DataId>::new());

    let mut cb = ChangeBuilder::new();
    v.data_view(data_id, MINIMAL).unwrap().move_to_document(doc2, &mut cb);
    project.apply_changes(cb, &reg, &ValueModules).unwrap();
    let v = view(&project, &reg);
    assert_eq!(v.open_document(doc).unwrap().data, Vec::<DataId>::new());
    assert_eq!(v.open_document(doc2).unwrap().data, vec![data_id]);

    // Deleting the document deletes its data; the orphan stays.
    let mut cb = ChangeBuilder::new();
    DocumentView { id: doc2, project: &v }.delete(&mut cb);
    project.apply_changes(cb, &reg, &ValueModules).unwrap();
    let v = view(&project, &reg);
    assert!(v.open_document(doc2).is_none());
    assert!(v.open_data_by_id(data_id, MINIMAL).is_none());
    assert!(v.open_data_by_id(orphan, MINIMAL).is_some());
}

#[test]
fn session_and_shared_sections_stay_with_the_replica() {
    let reg = registry();
    let mut project = Project::new();
    let data_id = setup(&mut project, &reg);
    let log_len = project.log.len();

    let mut cb = ChangeBuilder::new();
    let v = view(&project, &reg);
    let d = v.data_view(data_id, MINIMAL).unwrap();
    d.apply_session(value(31), &mut cb);
    d.apply_shared(value(17), &mut cb);
    project.apply_changes(cb, &reg, &ValueModules).unwrap();

    // Only an empty changes entry is logged.
    assert_eq!(project.log.len(), log_len + 1);
    let v = view(&project, &reg);
    let data = v.open_data_by_id(data_id, MINIMAL).unwrap();
    assert_eq!(num(&data.session), 31);
    assert_eq!(num(&data.shared), 17);
    assert_eq!(num(&data.persistent), 0);

    // A replica does not get them.
    let r = replica_of(&project);
    let rv = view(&r, &reg);
    assert_eq!(num(&rv.open_data_by_id(data_id, MINIMAL).unwrap().session), 0);
}

#[test]
fn session_transaction_with_another_module_is_refused() {
    let mut reg = registry();
    reg.register(ModuleId(2));
    let mut project = Project::new();
    let data_id = setup(&mut project, &reg);

    let mut cb = ChangeBuilder::new();
    let v = view(&project, &reg);
    v.data_view(data_id, MINIMAL).unwrap().apply_session(value(1), &mut cb);
    project.apply_changes(cb, &reg, &ValueModules).unwrap();

    let log_len = project.log.len();
    let mut cb = ChangeBuilder::new();
    let other = project::DataView { id: data_id, module: ModuleId(2), project: &v };
    other.apply_session(value(2), &mut cb);
    let err = project.apply_changes(cb, &reg, &ValueModules).unwrap_err();
    assert_eq!(err, project::ApplyError::ModuleMismatch);
    assert_eq!(project.log.len(), log_len);
}

#[test]
fn user_transactions_reach_only_the_users_own_sessions() {
    let reg = registry();
    let mut project = Project::new();
    let data_id = setup(&mut project, &reg);
    let mut cb = ChangeBuilder::new();
    let v = view(&project, &reg);
    v.data_view(data_id, MINIMAL).unwrap().apply_persistent_user(value(4), &mut cb);
    project.apply_changes(cb, &reg, &ValueModules).unwrap();
    assert_eq!(num(&view(&project, &reg).open_data_by_id(data_id, MINIMAL).unwrap().persistent_user), 4);

    // Another user's replica does not apply them.
    let mut other = replica_of(&project);
    other.user = project::UserId(5);
    assert_eq!(num(&view(&other, &reg).open_data_by_id(data_id, MINIMAL).unwrap().persistent_user), 0);
}

#[test]
fn unknown_module_on_a_missing_section_is_refused() {
    let reg = registry();
    let mut project = Project::new();
    let data_id = setup(&mut project, &reg);
    let log_len = project.log.len();

    let v = view(&project, &reg);
    let mut cb = ChangeBuilder::new();
    let other = project::DataView { id: data_id, module: ModuleId(9), project: &v };
    other.apply_session(value(2), &mut cb);
    let err = project.apply_changes(cb, &reg, &ValueModules).unwrap_err();
    assert_eq!(err, project::ApplyError::UnknownModule(ModuleId(9)));
    assert_eq!(project.log.len(), log_len);
    assert!(project.session_data.is_empty());
}

#[test]
fn refused_transaction_keeps_the_value() {
    let reg = registry();
    let mut project = Project::new();
    let data_id = setup(&mut project, &reg);
    edit(&mut project, &reg, data_id, 20);

    let mut cb = ChangeBuilder::new();
    let v = view(&project, &reg);
    v.data_view(data_id, MINIMAL).unwrap().apply_persistent(vec![1, 2], &mut cb);
    project.apply_changes(cb, &reg, &ValueModules).unwrap();
    assert_eq!(read(&project, &reg, data_id), 20);
}

#[test]
fn replicas_of_other_users_agree_on_persistent_data() {
    let reg = registry();
    let mut a = Project::new();
    let data_id = setup(&mut a, &reg);
    let mut b = replica_of(&a);
    b.user = project::UserId(9);

    // `b` keeps a session section of its own.
    let mut cb = ChangeBuilder::new();
    view(&b, &reg).data_view(data_id, MINIMAL).unwrap().apply_session(value(5), &mut cb);
    b.apply_changes(cb, &reg, &ValueModules).unwrap();

    edit(&mut a, &reg, data_id, 1);
    edit(&mut b, &reg, data_id, 2);
    a.merge_remote(&b, &reg).unwrap();
    b.merge_remote(&a, &reg).unwrap();

    assert_eq!(read(&a, &reg, data_id), read(&b, &reg, data_id));
    let da = view(&a, &reg).open_data_by_id(data_id, MINIMAL).unwrap().clone();
    let db = view(&b, &reg).open_data_by_id(data_id, MINIMAL).unwrap().clone();
    assert_ne!(num(&da.session), num(&db.session));
}

use std::sync::Arc;
use project::{
    Change, ErasedArgs, LogEntry, LogPayload, MergeError, ModuleId, ModuleRegistry, Project,
    SessionId,
};

fn entry(lamport: u64, session: u128, payload: LogPayload) -> LogEntry {
    LogEntry { lamport, session: SessionId(session), wall_clock: None, payload }
}

fn keys(p: &Project) -> Vec<(u64, u128)> {
    p.log.iter().map(|e| (e.lamport, e.session.0)).collect()
}

fn replica_of(p: &Project) -> Project {
    let mut r = Project::new();
    r.uuid = p.uuid;
    r
}

#[test]
fn merge_different_project_rejected() {
    let mut a = Project::new();
    let unrelated = Project::new();
    let reg = ModuleRegistry::new();
    let err = a.merge_remote(&unrelated, &reg).unwrap_err();
    assert!(matches!(err, MergeError::DifferentProject));
}

#[test]
fn merge_appends_unknown_entries_and_advances_clock() {
    let reg = ModuleRegistry::new();
    let mut a = Project::new();
    a.log.push(entry(0, 1, LogPayload::Undo));
    a.lamport_clock = 1;
    let mut b = replica_of(&a);
    b.log.push(entry(0, 1, LogPayload::Undo));
    b.log.push(entry(4, 2, LogPayload::Redo));
    b.log.push(entry(2, 2, LogPayload::Redo));
    a.merge_remote(&b, &reg).unwrap();
    assert_eq!(keys(&a), vec![(0, 1), (4, 2), (2, 2)]);
    assert_eq!(a.lamport_clock, 5);
}

#[test]
fn merge_is_idempotent() {
    let reg = ModuleRegistry::new();
    let mut a = Project::new();
    let mut b = replica_of(&a);
    b.log.push(entry(3, 9, LogPayload::Undo));
    a.merge_remote(&b, &reg).unwrap();
    let once = keys(&a);
    let clock = a.lamport_clock;
    a.merge_remote(&b, &reg).unwrap();
    assert_eq!(keys(&a), once);
    assert_eq!(a.lamport_clock, clock);
    assert_eq!(clock, 4);
}

#[test]
fn merge_rejects_unknown_module_and_changes_nothing() {
    let mut reg = ModuleRegistry::new();
    reg.register(ModuleId(10));
    let mut a = Project::new();
    let mut b = replica_of(&a);
    b.log.push(entry(
        1,
        2,
        LogPayload::Changes(Arc::new(vec![
            Change::Transaction { id: project::DataId(5), args: ErasedArgs { module: ModuleId(10), data: vec![] } },
            Change::UserTransaction { id: project::DataId(5), args: ErasedArgs { module: ModuleId(11), data: vec![] } },
        ])),
    ));
    let err = a.merge_remote(&b, &reg).unwrap_err();
    assert_eq!(err, MergeError::UnknownModule(ModuleId(11)));
    assert!(a.log.is_empty());
    assert_eq!(a.lamport_clock, 0);

    reg.register(ModuleId(11));
    a.merge_remote(&b, &reg).unwrap();
    assert_eq!(keys(&a), vec![(1, 2)]);
}

#[test]
fn registry_knows_registered_modules() {
    let mut reg = ModuleRegistry::new();
    assert!(!reg.contains(ModuleId(1)));
    reg.register(ModuleId(1));
    assert!(reg.contains(ModuleId(1)));
    assert!(!reg.contains(ModuleId(2)));
}

#[test]
fn new_projects_have_distinct_random_identities() {
    let a = Project::new();
    let b = Project::new();
    assert_ne!(a.uuid, b.uuid);
    assert_eq!((a.uuid >> 76) & 0xF, 4);
    assert_eq!(a.user.0, 0);
    assert_eq!(a.branch.0, 0);
}

#[test]
fn unknown_module_names_the_first_unregistered_module() {
    let mut reg = ModuleRegistry::new();
    reg.register(ModuleId(1));
    let mut p = Project::new();
    p.log.push(entry(
        0,
        1,
        LogPayload::Changes(Arc::new(vec![
            Change::DeleteData(project::DataId(9)),
            Change::Transaction { id: project::DataId(9), args: ErasedArgs { module: ModuleId(1), data: vec![] } },
            Change::UserTransaction { id: project::DataId(9), args: ErasedArgs { module: ModuleId(3), data: vec![] } },
        ])),
    ));
    p.log.push(entry(1, 1, LogPayload::Changes(Arc::new(vec![Change::CreateData {
        id: project::DataId(10),
        module: ModuleId(4),
        owner: None,
    }]))));
    assert_eq!(p.unknown_module(&reg), Some(ModuleId(3)));
    reg.register(ModuleId(3));
    assert_eq!(p.unknown_module(&reg), Some(ModuleId(4)));
    reg.register(ModuleId(4));
    assert_eq!(p.unknown_module(&reg), None);
}

#[test]
fn merged_entries_share_their_changes() {
    let mut reg = ModuleRegistry::new();
    reg.register(ModuleId(1));
    let mut a = Project::new();
    let mut b = replica_of(&a);
    let changes = Arc::new(vec![Change::CreateData { id: project::DataId(3), module: ModuleId(1), owner: None }]);
    b.log.push(entry(0, 2, LogPayload::Changes(changes.clone())));
    a.merge_remote(&b, &reg).unwrap();
    match &a.log[0].payload {
        LogPayload::Changes(cs) => assert!(Arc::ptr_eq(cs, &changes)),
        _ => panic!("a change list was expected"),
    }
    let copy = a.log[0].clone();
    match (&copy.payload, &a.log[0].payload) {
        (LogPayload::Changes(x), LogPayload::Changes(y)) => assert!(Arc::ptr_eq(x, y)),
        _ => panic!("a change list was expected"),
    }
}

#[test]
fn replicas_that_merge_each_other_hold_the_same_entries() {
    let reg = ModuleRegistry::new();
    let mut a = Project::new();
    let mut b = replica_of(&a);
    a.log.push(entry(0, 1, LogPayload::Undo));
    a.log.push(entry(2, 1, LogPayload::Redo));
    b.log.push(entry(0, 1, LogPayload::Undo));
    b.log.push(entry(1, 2, LogPayload::Undo));
    let mut a0 = replica_of(&a);
    a0.log = a.log.clone();
    a.merge_remote(&b, &reg).unwrap();
    b.merge_remote(&a0, &reg).unwrap();
    let mut ka = keys(&a);
    let mut kb = keys(&b);
    assert_eq!(ka, vec![(0, 1), (2, 1), (1, 2)]);
    assert_eq!(kb, vec![(0, 1), (1, 2), (2, 1)]);
    ka.sort();
    kb.sort();
    assert_eq!(ka, kb);
}

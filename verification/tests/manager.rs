use project::{ManagerError, ProjectCreationLocation, ProjectLocation, ProjectManager, UserId};

#[test]
fn opening_a_missing_project_is_not_found() {
    let manager = ProjectManager::new();
    let r = manager.open(ProjectLocation::Local("/tmp/p".to_string()), UserId(1));
    assert_eq!(r.unwrap_err(), ManagerError::NotFound);
}

#[test]
fn a_created_project_opens_at_its_location() {
    let mut manager = ProjectManager::new();
    let managed = manager.create(ProjectCreationLocation::Managed("host".to_string()), UserId(3)).unwrap();
    let local = manager.create(ProjectCreationLocation::Local("/tmp/p".to_string()), UserId(4)).unwrap();
    assert_eq!(local, ProjectLocation::Local("/tmp/p".to_string()));

    let p = manager.open(managed.clone(), UserId(3)).unwrap();
    assert_eq!(p.user, UserId(3));
    assert!(p.log.is_empty());
    match &managed {
        ProjectLocation::Managed(m) => {
            assert_eq!(m.host, "host");
            assert_eq!(m.uuid, p.uuid);
        }
        ProjectLocation::Local(_) => panic!("a managed project lives at a managed location"),
    }
    assert_eq!(manager.open(local, UserId(4)).unwrap().user, UserId(4));
}

#[test]
fn creating_where_a_project_is_is_refused() {
    let mut manager = ProjectManager::new();
    manager.create(ProjectCreationLocation::Local("/tmp/p".to_string()), UserId(1)).unwrap();
    let r = manager.create(ProjectCreationLocation::Local("/tmp/p".to_string()), UserId(2));
    assert_eq!(r.unwrap_err(), ManagerError::PermissionDenied);
    assert_eq!(manager.projects.len(), 1);
}

#[test]
fn a_given_project_goes_where_its_location_is_free() {
    let mut manager = ProjectManager::new();
    let mut p = project::Project::new();
    p.uuid = 42;
    let l = manager.create_with(ProjectCreationLocation::Managed("h".to_string()), p).unwrap();
    assert_eq!(
        l,
        ProjectLocation::Managed(project::ManagedProjectLocation { host: "h".to_string(), uuid: 42 })
    );
    let mut q = project::Project::new();
    q.uuid = 42;
    let r = manager.create_with(ProjectCreationLocation::Managed("h".to_string()), q);
    assert_eq!(r.unwrap_err(), ManagerError::PermissionDenied);
    let mut other = project::Project::new();
    other.uuid = 43;
    assert!(manager.create_with(ProjectCreationLocation::Managed("h".to_string()), other).is_ok());
    assert_eq!(manager.projects.len(), 2);
}

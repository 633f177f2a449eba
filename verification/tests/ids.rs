use project::{BranchId, ChangeBuilder, DataId, DocumentId, SessionId, UserId};

/// The version 4 and variant bits of a random UUID.
fn is_random(v: u128) -> bool {
    v & 0x0000_0000_0000_F000_C000_0000_0000_0000 == 0x0000_0000_0000_4000_8000_0000_0000_0000
}

#[test]
fn random_identifiers_carry_the_version_bits() {
    assert!(is_random(UserId::new().0));
    assert!(is_random(BranchId::new().0));
    assert!(is_random(SessionId::new().0));
    assert!(is_random(DocumentId::new_v4().0));
    assert!(is_random(DataId::new_v4().0));
    assert_ne!(SessionId::new(), SessionId::new());
}

#[test]
fn defaults_are_the_local_user_and_the_main_branch() {
    assert_eq!(UserId::default(), UserId::local());
    assert_eq!(UserId::local(), UserId(0));
    assert_eq!(BranchId::default(), BranchId::main());
    assert_eq!(BranchId::main(), BranchId(0));
    assert!(ChangeBuilder::default().changes.is_empty());
}

#[test]
fn appending_builders_keeps_the_order() {
    let mut a = ChangeBuilder::new();
    a.changes.push(project::PendingChange::Change(project::Change::DeleteData(DataId(1))));
    let mut b = ChangeBuilder::new();
    b.changes.push(project::PendingChange::Change(project::Change::DeleteData(DataId(2))));
    a.append(b);
    assert_eq!(a.changes.len(), 2);
    assert!(matches!(a.changes[1], project::PendingChange::Change(project::Change::DeleteData(DataId(2)))));
}

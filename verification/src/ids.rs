//! Identifiers of users, sessions, branches, documents, data sections,
//! modules and checkpoints.
//!
//! Each identifier is a 128 bit UUID, held as its big-endian integer value.

use vstd::prelude::*;

verus! {

/// The version and variant bits that a random (version 4) UUID always carries.
pub open spec fn is_random_uuid(v: u128) -> bool {
    v & 0x0000_0000_0000_F000_C000_0000_0000_0000u128 == 0x0000_0000_0000_4000_8000_0000_0000_0000u128
}

/// A random UUID never is the reserved all-zero value.
pub proof fn lemma_random_uuid_nonzero(v: u128)
    requires
        is_random_uuid(v),
    ensures
        v != 0,
{
    assert(v & 0x0000_0000_0000_F000_C000_0000_0000_0000u128
        == 0x0000_0000_0000_4000_8000_0000_0000_0000u128 ==> v != 0) by (bit_vector);
}

/// A fresh random UUID (`uuid::Uuid::new_v4`), as its integer value.
///
/// Claimed: the value carries the version 4 and RFC 4122 variant bits, which
/// `new_v4` sets on top of its random bits. Nothing else is claimed of it.
#[verifier::external_body]
fn random_uuid() -> (r: u128)
    ensures
        is_random_uuid(r),
{
    uuid::Uuid::new_v4().as_u128()
}

/// A fresh random identity for a new project.
pub(crate) fn random_project_uuid() -> (r: u128)
    ensures
        is_random_uuid(r),
{
    random_uuid()
}

/// Unique identifier of a user.
#[derive(Debug, Clone, Copy, PartialEq, Eq, Hash, PartialOrd, Ord, Structural)]
pub struct UserId(pub u128);

impl UserId {
    /// A new user with a random identifier.
    pub fn new() -> (r: UserId)
        ensures
            is_random_uuid(r.0),
    {
        UserId(random_uuid())
    }

    /// The user reserved for local, single-user projects.
    pub fn local() -> (r: UserId)
        ensures
            r.0 == 0,
    {
        UserId(0)
    }
}

impl Default for UserId {
    /// The local user.
    fn default() -> (r: UserId)
        ensures
            r.0 == 0,
    {
        UserId::local()
    }
}

/// Unique identifier of a branch of a project.
#[derive(Debug, Clone, Copy, PartialEq, Eq, Hash, PartialOrd, Ord, Structural)]
pub struct BranchId(pub u128);

impl BranchId {
    /// A new branch with a random identifier.
    pub fn new() -> (r: BranchId)
        ensures
            is_random_uuid(r.0),
    {
        BranchId(random_uuid())
    }

    /// The `main` branch, which has the fixed identifier `0`.
    pub fn main() -> (r: BranchId)
        ensures
            r.0 == 0,
    {
        BranchId(0)
    }
}

impl Default for BranchId {
    /// The `main` branch.
    fn default() -> (r: BranchId)
        ensures
            r.0 == 0,
    {
        BranchId::main()
    }
}

/// Unique identifier of an editing session; undo and redo act per session.
#[derive(Debug, Clone, Copy, PartialEq, Eq, Hash, PartialOrd, Ord, Structural)]
pub struct SessionId(pub u128);

impl SessionId {
    /// A new session with a random identifier.
    pub fn new() -> (r: SessionId)
        ensures
            is_random_uuid(r.0),
    {
        SessionId(random_uuid())
    }
}

/// Unique identifier of a named position in the log.
#[derive(Debug, Clone, Copy, PartialEq, Eq, Hash, PartialOrd, Ord, Structural)]
pub struct CheckpointId(pub u128);

/// Unique identifier of a document.
#[derive(Debug, Clone, Copy, PartialEq, Eq, Hash, PartialOrd, Ord, Structural)]
pub struct DocumentId(pub u128);

impl DocumentId {
    /// A new random document identifier.
    pub fn new_v4() -> (r: DocumentId)
        ensures
            is_random_uuid(r.0),
    {
        DocumentId(random_uuid())
    }
}

/// Unique identifier of a data section.
#[derive(Debug, Clone, Copy, PartialEq, Eq, Hash, PartialOrd, Ord, Structural)]
pub struct DataId(pub u128);

impl DataId {
    /// A new random data identifier.
    pub fn new_v4() -> (r: DataId)
        ensures
            is_random_uuid(r.0),
    {
        DataId(random_uuid())
    }
}

/// Globally unique identifier of a module (the kind of a data section).
#[derive(Debug, Clone, Copy, PartialEq, Eq, Hash, PartialOrd, Ord, Structural)]
pub struct ModuleId(pub u128);

} // verus!

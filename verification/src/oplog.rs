//! Entries of the operation log and the changes they carry.
//!
//! Each [`LogEntry`] carries a totally ordered `(lamport, session)` key.

use vstd::prelude::*;
use crate::ids::{BranchId, CheckpointId, DataId, DocumentId, ModuleId, SessionId, UserId};
use crate::path::{FolderPath, FolderTarget, Path};
use std::sync::Arc;

verus! {

#[verifier::external_type_specification]
#[verifier::external_body]
pub struct ExSystemTime(std::time::SystemTime);

/// Another pointer to the value of `a` (`Arc::clone`).
///
/// Claimed: the new pointer points to the same allocation, so it stands for
/// the same value.
#[verifier::external_body]
pub(crate) fn share<T>(a: &Arc<T>) -> (r: Arc<T>)
    ensures
        r == *a,
{
    a.clone()
}

/// Arguments of a transaction on module data, in the encoded form the module
/// gave them, together with the module that reads them.
#[derive(Debug, Clone)]
pub struct ErasedArgs {
    /// The module the arguments belong to.
    pub module: ModuleId,
    /// The encoded arguments.
    pub data: Vec<u8>,
}

/// One change to the persistent state of a project.
#[derive(Debug, Clone)]
pub enum Change {
    CreateDocument { id: DocumentId, path: Path },
    DeleteDocument(DocumentId),
    RenameDocument { id: DocumentId, new_name: String },
    MoveDocument { id: DocumentId, new_folder: FolderPath },
    MoveFolder { old_path: Path, new_path: FolderTarget },
    CreateData { id: DataId, module: ModuleId, owner: Option<DocumentId> },
    DeleteData(DataId),
    MoveData { id: DataId, new_owner: Option<DocumentId> },
    Transaction { id: DataId, args: ErasedArgs },
    UserTransaction { id: DataId, args: ErasedArgs },
}

/// What a [`LogEntry`] carries.
#[derive(Debug, Clone)]
pub enum LogPayload {
    /// Atomic group of changes, undoable as one unit; shared by the copies
    /// of the entry.
    Changes(Arc<Vec<Change>>),
    /// Cancel the most recent live `Changes` or `MergeBranch` of this session.
    Undo,
    /// Reinstate the most recently cancelled entry of this session (last in, first out).
    Redo,
    /// Declares a new session belonging to `user` on `branch`.
    NewSession { user: UserId, branch: BranchId },
    /// Named position in the log.
    Checkpoint(CheckpointId),
    /// One-shot snapshot import of `from` into `into`. Undoable.
    MergeBranch { from: BranchId, into: BranchId },
}

/// Single entry of a project's log.
#[derive(Debug)]
pub struct LogEntry {
    pub lamport: u64,
    pub session: SessionId,
    /// Display only; never read when the log is replayed.
    pub wall_clock: Option<std::time::SystemTime>,
    pub payload: LogPayload,
}

impl Clone for LogEntry {
    fn clone(&self) -> (r: Self)
        ensures
            r == *self,
    {
        let payload = match &self.payload {
            LogPayload::Changes(cs) => LogPayload::Changes(share(cs)),
            LogPayload::Undo => LogPayload::Undo,
            LogPayload::Redo => LogPayload::Redo,
            LogPayload::NewSession { user, branch } => LogPayload::NewSession { user: *user, branch: *branch },
            LogPayload::Checkpoint(c) => LogPayload::Checkpoint(*c),
            LogPayload::MergeBranch { from, into } => LogPayload::MergeBranch { from: *from, into: *into },
        };
        LogEntry { lamport: self.lamport, session: self.session, wall_clock: self.wall_clock, payload }
    }
}

/// A change recorded in a [`ChangeBuilder`](crate::project::ChangeBuilder)
/// that is not yet applied.
#[derive(Debug, Clone)]
pub enum PendingChange {
    /// A change to the persistent state, logged.
    Change(Change),
    /// A transaction on the session section of data `id`, kept by the replica only.
    SessionTransaction { id: DataId, args: ErasedArgs },
    /// A transaction on the shared section of data `id`, kept by the replica only.
    SharedTransaction { id: DataId, args: ErasedArgs },
}

} // verus!

//! Verified core of the project model: document paths, identifiers, the
//! operation log, its resolvers and its replay into views, the tracking of
//! reads for caching, documents shared by editing sessions with undo and
//! redo per session, and the checks and caches of the viewport pipeline.

pub mod access;
pub mod apply;
pub mod cache;
pub mod ctype;
pub mod edit;
pub mod history;
pub mod ids;
pub mod manager;
pub mod oplog;
pub mod path;
pub mod project;
pub mod replay;
pub mod resolve;
pub mod session;
pub mod text;
pub mod transaction;
pub mod view;
pub mod viewport;
pub mod workspace;

pub use access::{AccessEvent, AccessRecorder, CacheValidator, TrackedDataView, TrackedDocumentView, TrackedProjectView};
pub use apply::ApplyError;
pub use edit::{DataView, DocumentView};
pub use ids::{BranchId, CheckpointId, DataId, DocumentId, ModuleId, SessionId, UserId};
pub use manager::{ManagedProjectLocation, ManagerError, ProjectCreationLocation, ProjectLocation, ProjectManager};
pub use oplog::{Change, ErasedArgs, LogEntry, LogPayload, PendingChange};
pub use path::{AncestorsIter, AncestorsUnescapedIter, FolderPath, FolderTarget, Path, PathCreationError};
pub use project::{ChangeBuilder, MergeError, ModuleRegistry, ModuleRegistryError, Project};
pub use replay::{ModuleCode, ProjectViewError, ValueModules};
pub use view::{Document, ErasedData, ErasedSection, ProjectView, Section};

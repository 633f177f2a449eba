//! Recording changes through a view: creating documents and data, and
//! planning transactions, deletions and moves of data.
//!
//! Nothing here changes a project; the changes are recorded in a
//! [`ChangeBuilder`] and take effect when the project applies it.

use vstd::prelude::*;
use crate::ids::{is_random_uuid, DataId, DocumentId, ModuleId};
use crate::oplog::{Change, ErasedArgs, PendingChange};
use crate::path::Path;
use crate::project::ChangeBuilder;
use crate::view::{find_data, ids_contain, ErasedData, ProjectView};

verus! {

/// A document of a view, on which changes can be recorded.
#[derive(Debug, Clone, Copy)]
pub struct DocumentView<'a> {
    pub id: DocumentId,
    pub project: &'a ProjectView,
}

/// A data of a view, of a known module, on which changes can be recorded.
#[derive(Debug, Clone, Copy)]
pub struct DataView<'a> {
    pub id: DataId,
    pub module: ModuleId,
    pub project: &'a ProjectView,
}

/// `new` is `old` with `c` recorded last.
pub open spec fn recorded(old: ChangeBuilder, new: ChangeBuilder, c: PendingChange) -> bool {
    new.changes@ == old.changes@.push(c)
}

impl ProjectView {
    /// Records the creation of an empty document at `path`, with a fresh
    /// random id, which it returns.
    pub fn create_document(&self, cb: &mut ChangeBuilder, path: Path) -> (r: DocumentId)
        ensures
            is_random_uuid(r.0),
            recorded(*old(cb), *final(cb), PendingChange::Change(Change::CreateDocument { id: r, path })),
    {
        let id = DocumentId::new_v4();
        cb.changes.push(PendingChange::Change(Change::CreateDocument { id, path }));
        id
    }

    /// Records the creation of data of `module` that belongs to no
    /// document, with a fresh random id, which it returns.
    pub fn create_data(&self, cb: &mut ChangeBuilder, module: ModuleId) -> (r: DataId)
        ensures
            is_random_uuid(r.0),
            recorded(*old(cb), *final(cb), PendingChange::Change(Change::CreateData { id: r, module, owner: None })),
    {
        let id = DataId::new_v4();
        cb.changes.push(PendingChange::Change(Change::CreateData { id, module, owner: None }));
        id
    }

    /// Document `id`, if the view holds it.
    pub fn document_view(&self, id: DocumentId) -> (r: Option<DocumentView>)
        ensures
            match r {
                Some(d) => d.id == id && d.project == self && self.document(id) is Some,
                None => self.document(id) is None,
            },
    {
        match self.open_document(id) {
            Some(_) => Some(DocumentView { id, project: self }),
            None => None,
        }
    }

    /// Data `id`, if the view holds it and it belongs to `module`.
    pub fn data_view(&self, id: DataId, module: ModuleId) -> (r: Option<DataView>)
        ensures
            match r {
                Some(d) => d.id == id && d.module == module && d.project == self && self.module_of(id) == Some(
                    module,
                ),
                None => self.module_of(id) != Some(module),
            },
    {
        match self.open_data_by_id(id, module) {
            Some(_) => Some(DataView { id, module, project: self }),
            None => None,
        }
    }
}

impl<'a> DocumentView<'a> {
    /// Data `id` of `module`, if this document holds it.
    pub fn open_data_by_id(&self, id: DataId, module: ModuleId) -> (r: Option<&'a ErasedData>)
        ensures
            match r {
                Some(d) => {
                    &&& self.project.document(self.id) matches Some(ids) && ids.contains(id)
                    &&& find_data(self.project.data@, id) == Some(*d)
                    &&& d.module == module
                },
                None => !(self.project.document(self.id) matches Some(ids) && ids.contains(id))
                    || self.project.module_of(id) != Some(module),
            },
    {
        match self.project.open_document(self.id) {
            Some(doc) => {
                if ids_contain(&doc.data, id) {
                    self.project.open_data_by_id(id, module)
                } else {
                    None
                }
            },
            None => None,
        }
    }

    /// The ids of the data of `module` that this document holds, in its order.
    pub fn open_data_by_type(&self, module: ModuleId) -> (r: Vec<DataId>)
        ensures
            r@ == match self.project.document(self.id) {
                Some(ids) => self.project.filter_by_module(ids, module),
                None => Seq::<DataId>::empty(),
            },
    {
        match self.project.open_document(self.id) {
            Some(doc) => self.project.data_of_type_among(&doc.data, module),
            None => Vec::new(),
        }
    }

    /// Records the creation of data of `module` in this document, with a
    /// fresh random id, which it returns.
    pub fn create_data(&self, cb: &mut ChangeBuilder, module: ModuleId) -> (r: DataId)
        ensures
            is_random_uuid(r.0),
            recorded(
                *old(cb),
                *final(cb),
                PendingChange::Change(Change::CreateData { id: r, module, owner: Some(self.id) }),
            ),
    {
        let id = DataId::new_v4();
        cb.changes.push(PendingChange::Change(Change::CreateData { id, module, owner: Some(self.id) }));
        id
    }

    /// Records the deletion of this document and of all its data.
    pub fn delete(&self, cb: &mut ChangeBuilder)
        ensures
            recorded(*old(cb), *final(cb), PendingChange::Change(Change::DeleteDocument(self.id))),
    {
        cb.changes.push(PendingChange::Change(Change::DeleteDocument(self.id)));
    }
}

impl<'a> DataView<'a> {
    /// Records a transaction on the persistent section.
    pub fn apply_persistent(&self, args: Vec<u8>, cb: &mut ChangeBuilder)
        ensures
            recorded(
                *old(cb),
                *final(cb),
                PendingChange::Change(Change::Transaction { id: self.id, args: ErasedArgs { module: self.module, data: args } }),
            ),
    {
        cb.changes.push(
            PendingChange::Change(Change::Transaction { id: self.id, args: ErasedArgs { module: self.module, data: args } }),
        );
    }

    /// Records a transaction on the persistent section of the viewing user.
    pub fn apply_persistent_user(&self, args: Vec<u8>, cb: &mut ChangeBuilder)
        ensures
            recorded(
                *old(cb),
                *final(cb),
                PendingChange::Change(
                    Change::UserTransaction { id: self.id, args: ErasedArgs { module: self.module, data: args } },
                ),
            ),
    {
        cb.changes.push(
            PendingChange::Change(
                Change::UserTransaction { id: self.id, args: ErasedArgs { module: self.module, data: args } },
            ),
        );
    }

    /// Records a transaction on the session section.
    pub fn apply_session(&self, args: Vec<u8>, cb: &mut ChangeBuilder)
        ensures
            recorded(
                *old(cb),
                *final(cb),
                PendingChange::SessionTransaction { id: self.id, args: ErasedArgs { module: self.module, data: args } },
            ),
    {
        cb.changes.push(
            PendingChange::SessionTransaction { id: self.id, args: ErasedArgs { module: self.module, data: args } },
        );
    }

    /// Records a transaction on the shared section.
    pub fn apply_shared(&self, args: Vec<u8>, cb: &mut ChangeBuilder)
        ensures
            recorded(
                *old(cb),
                *final(cb),
                PendingChange::SharedTransaction { id: self.id, args: ErasedArgs { module: self.module, data: args } },
            ),
    {
        cb.changes.push(
            PendingChange::SharedTransaction { id: self.id, args: ErasedArgs { module: self.module, data: args } },
        );
    }

    /// Records the deletion of this data.
    pub fn delete(&self, cb: &mut ChangeBuilder)
        ensures
            recorded(*old(cb), *final(cb), PendingChange::Change(Change::DeleteData(self.id))),
    {
        cb.changes.push(PendingChange::Change(Change::DeleteData(self.id)));
    }

    /// Records moving this data into document `new_owner`.
    pub fn move_to_document(&self, new_owner: DocumentId, cb: &mut ChangeBuilder)
        ensures
            recorded(
                *old(cb),
                *final(cb),
                PendingChange::Change(Change::MoveData { id: self.id, new_owner: Some(new_owner) }),
            ),
    {
        cb.changes.push(PendingChange::Change(Change::MoveData { id: self.id, new_owner: Some(new_owner) }));
    }

    /// Records taking this data out of every document.
    pub fn make_orphan(&self, cb: &mut ChangeBuilder)
        ensures
            recorded(*old(cb), *final(cb), PendingChange::Change(Change::MoveData { id: self.id, new_owner: None })),
    {
        cb.changes.push(PendingChange::Change(Change::MoveData { id: self.id, new_owner: None }));
    }
}

} // verus!

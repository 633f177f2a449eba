//! A read-only snapshot of a project: its documents and data sections.
//!
//! The four sections of a data (persistent, persistent per user, session
//! and shared) are held in the encoded form their module gave them.

use vstd::prelude::*;
use crate::ids::{DataId, DocumentId, ModuleId, UserId};

verus! {

/// A document: the data sections it contains, in order.
#[derive(Debug, Clone)]
pub struct Document {
    pub data: Vec<DataId>,
}

/// The state of one data section, with the module that reads it.
#[derive(Debug, Clone)]
pub struct ErasedData {
    pub module: ModuleId,
    pub persistent: Vec<u8>,
    pub persistent_user: Vec<u8>,
    pub session: Vec<u8>,
    pub shared: Vec<u8>,
}

/// A session or shared section kept by a replica outside the log, with the
/// module that reads it.
#[derive(Debug, Clone)]
pub struct ErasedSection {
    pub module: ModuleId,
    pub data: Vec<u8>,
}

/// Which of the four sections of a data section.
#[derive(Debug, Clone, Copy, PartialEq, Eq, Structural)]
pub enum Section {
    Persistent,
    PersistentUser,
    Session,
    Shared,
}

/// A read-only snapshot of a project.
#[derive(Debug, Clone)]
pub struct ProjectView {
    /// Identifies the project the snapshot was taken of.
    pub uuid: u128,
    /// The user viewing the project.
    pub user: UserId,
    /// All data sections (the first entry of an id counts).
    pub data: Vec<(DataId, ErasedData)>,
    /// All documents (the first entry of an id counts).
    pub documents: Vec<(DocumentId, Document)>,
}

/// The data ids of the first document with id `id`, if any.
pub open spec fn find_document(docs: Seq<(DocumentId, Document)>, id: DocumentId) -> Option<Seq<DataId>>
    decreases docs.len(),
{
    if docs.len() == 0 {
        None
    } else if docs[0].0 == id {
        Some(docs[0].1.data@)
    } else {
        find_document(docs.skip(1), id)
    }
}

/// The first data entry with id `id`, if any.
pub open spec fn find_data(data: Seq<(DataId, ErasedData)>, id: DataId) -> Option<ErasedData>
    decreases data.len(),
{
    if data.len() == 0 {
        None
    } else if data[0].0 == id {
        Some(data[0].1)
    } else {
        find_data(data.skip(1), id)
    }
}

/// The encoded content of one section.
pub open spec fn section_of(d: ErasedData, s: Section) -> Seq<u8> {
    match s {
        Section::Persistent => d.persistent@,
        Section::PersistentUser => d.persistent_user@,
        Section::Session => d.session@,
        Section::Shared => d.shared@,
    }
}

impl ProjectView {
    /// The data ids of document `id`, if the document exists.
    pub open spec fn document(&self, id: DocumentId) -> Option<Seq<DataId>> {
        find_document(self.documents@, id)
    }

    /// The module of data `id`, if the data exists.
    pub open spec fn module_of(&self, id: DataId) -> Option<ModuleId> {
        match find_data(self.data@, id) {
            Some(d) => Some(d.module),
            None => None,
        }
    }

    /// The encoded content of section `s` of data `id`, if the data exists.
    pub open spec fn section(&self, id: DataId, s: Section) -> Option<Seq<u8>> {
        match find_data(self.data@, id) {
            Some(d) => Some(section_of(d, s)),
            None => None,
        }
    }

    /// The ids of all data of `module`, in the order of the snapshot.
    pub open spec fn ids_of_module(&self, module: ModuleId) -> Seq<DataId> {
        ids_of_module_in(self.data@, module)
    }

    /// The ids among `ids` whose data exists and belongs to `module`, in order.
    pub open spec fn filter_by_module(&self, ids: Seq<DataId>, module: ModuleId) -> Seq<DataId>
        decreases ids.len(),
    {
        if ids.len() == 0 {
            seq![]
        } else {
            let rest = self.filter_by_module(ids.drop_last(), module);
            if self.module_of(ids.last()) == Some(module) {
                rest.push(ids.last())
            } else {
                rest
            }
        }
    }
}

/// The ids of the entries of `data` that belong to `module`, in order.
pub open spec fn ids_of_module_in(data: Seq<(DataId, ErasedData)>, module: ModuleId) -> Seq<DataId>
    decreases data.len(),
{
    if data.len() == 0 {
        seq![]
    } else {
        let rest = ids_of_module_in(data.drop_last(), module);
        if data.last().1.module == module {
            rest.push(data.last().0)
        } else {
            rest
        }
    }
}

impl ProjectView {
    /// Position of the first document entry with id `id`.
    fn document_index(&self, id: DocumentId) -> (r: Option<usize>)
        ensures
            match r {
                Some(k) => k < self.documents.len() && self.document(id) == Some(self.documents@[k as int].1.data@),
                None => self.document(id) is None,
            },
    {
        let mut i: usize = 0;
        assert(self.documents@.skip(0) == self.documents@);
        while i < self.documents.len()
            invariant
                i <= self.documents.len(),
                find_document(self.documents@, id) == find_document(self.documents@.skip(i as int), id),
            decreases self.documents.len() - i,
        {
            let ghost rest = self.documents@.skip(i as int);
            assert(rest[0] == self.documents@[i as int]);
            assert(rest.skip(1) == self.documents@.skip(i + 1));
            if self.documents[i].0 == id {
                return Some(i);
            }
            i += 1;
        }
        None
    }

    /// Position of the first data entry with id `id`.
    fn data_index(&self, id: DataId) -> (r: Option<usize>)
        ensures
            match r {
                Some(k) => k < self.data.len() && find_data(self.data@, id) == Some(self.data@[k as int].1),
                None => find_data(self.data@, id) is None,
            },
    {
        let mut i: usize = 0;
        assert(self.data@.skip(0) == self.data@);
        while i < self.data.len()
            invariant
                i <= self.data.len(),
                find_data(self.data@, id) == find_data(self.data@.skip(i as int), id),
            decreases self.data.len() - i,
        {
            let ghost rest = self.data@.skip(i as int);
            assert(rest[0] == self.data@[i as int]);
            assert(rest.skip(1) == self.data@.skip(i + 1));
            if self.data[i].0 == id {
                return Some(i);
            }
            i += 1;
        }
        None
    }

    /// The data with id `id`, whatever its module, if any.
    pub fn find_data_entry(&self, id: DataId) -> (r: Option<&ErasedData>)
        ensures
            match r {
                Some(d) => find_data(self.data@, id) == Some(*d),
                None => find_data(self.data@, id) is None,
            },
    {
        match self.data_index(id) {
            Some(k) => Some(&self.data[k].1),
            None => None,
        }
    }

    /// The document with id `id`, if any.
    pub fn open_document(&self, id: DocumentId) -> (r: Option<&Document>)
        ensures
            match r {
                Some(d) => self.document(id) == Some(d.data@),
                None => self.document(id) is None,
            },
    {
        match self.document_index(id) {
            Some(k) => Some(&self.documents[k].1),
            None => None,
        }
    }

    /// The data with id `id`, if it exists and belongs to `module`.
    pub fn open_data_by_id(&self, id: DataId, module: ModuleId) -> (r: Option<&ErasedData>)
        ensures
            match r {
                Some(d) => find_data(self.data@, id) == Some(*d) && d.module == module,
                None => self.module_of(id) != Some(module),
            },
    {
        match self.data_index(id) {
            Some(k) => {
                if self.data[k].1.module == module {
                    Some(&self.data[k].1)
                } else {
                    None
                }
            },
            None => None,
        }
    }

    /// The ids of all data of `module`, in the order of the snapshot.
    pub fn open_data_by_type(&self, module: ModuleId) -> (r: Vec<DataId>)
        ensures
            r@ == self.ids_of_module(module),
    {
        let mut r: Vec<DataId> = Vec::new();
        let mut i: usize = 0;
        while i < self.data.len()
            invariant
                i <= self.data.len(),
                r@ == ids_of_module_in(self.data@.take(i as int), module),
            decreases self.data.len() - i,
        {
            assert(self.data@.take(i + 1).drop_last() == self.data@.take(i as int));
            if self.data[i].1.module == module {
                r.push(self.data[i].0);
            }
            i += 1;
        }
        assert(self.data@.take(i as int) == self.data@);
        r
    }

    /// The ids among `ids` whose data exists and belongs to `module`, in order.
    pub fn data_of_type_among(&self, ids: &Vec<DataId>, module: ModuleId) -> (r: Vec<DataId>)
        ensures
            r@ == self.filter_by_module(ids@, module),
    {
        let mut r: Vec<DataId> = Vec::new();
        let mut i: usize = 0;
        while i < ids.len()
            invariant
                i <= ids.len(),
                r@ == self.filter_by_module(ids@.take(i as int), module),
            decreases ids.len() - i,
        {
            assert(ids@.take(i + 1).drop_last() == ids@.take(i as int));
            let id = ids[i];
            match self.data_index(id) {
                Some(k) => {
                    if self.data[k].1.module == module {
                        r.push(id);
                    }
                },
                None => {},
            }
            i += 1;
        }
        assert(ids@.take(i as int) == ids@);
        r
    }
}

/// Whether `a` and `b` hold the same bytes.
pub(crate) fn bytes_eq(a: &Vec<u8>, b: &Vec<u8>) -> (r: bool)
    ensures
        r == (a@ == b@),
{
    if a.len() != b.len() {
        return false;
    }
    let mut i: usize = 0;
    while i < a.len()
        invariant
            a.len() == b.len(),
            i <= a.len(),
            forall|k: int| 0 <= k < i ==> a@[k] == b@[k],
        decreases a.len() - i,
    {
        if a[i] != b[i] {
            return false;
        }
        i += 1;
    }
    assert(a@ =~= b@);
    true
}

/// Whether `ids` holds `x`.
pub(crate) fn ids_contain(ids: &Vec<DataId>, x: DataId) -> (r: bool)
    ensures
        r == ids@.contains(x),
{
    let mut i: usize = 0;
    while i < ids.len()
        invariant
            i <= ids.len(),
            forall|k: int| 0 <= k < i ==> ids@[k] != x,
        decreases ids.len() - i,
    {
        if ids[i] == x {
            assert(ids@[i as int] == x);
            return true;
        }
        i += 1;
    }
    false
}

/// Comparing one section of two data.
pub trait DataCompare {
    /// Both hold the same persistent section.
    fn persistent_eq(&self, other: &Self) -> bool;

    /// Both hold the same persistent section of the user.
    fn persistent_user_eq(&self, other: &Self) -> bool;

    /// Both hold the same session section.
    fn session_eq(&self, other: &Self) -> bool;

    /// Both hold the same shared section.
    fn shared_eq(&self, other: &Self) -> bool;
}

/// Two data hold the same section when they belong to the same module and
/// the section holds the same encoded content.
impl DataCompare for ErasedData {
    fn persistent_eq(&self, other: &ErasedData) -> (r: bool)
        ensures
            r == (self.module == other.module && self.persistent@ == other.persistent@),
    {
        self.module == other.module && bytes_eq(&self.persistent, &other.persistent)
    }

    fn persistent_user_eq(&self, other: &ErasedData) -> (r: bool)
        ensures
            r == (self.module == other.module && self.persistent_user@ == other.persistent_user@),
    {
        self.module == other.module && bytes_eq(&self.persistent_user, &other.persistent_user)
    }

    fn session_eq(&self, other: &ErasedData) -> (r: bool)
        ensures
            r == (self.module == other.module && self.session@ == other.session@),
    {
        self.module == other.module && bytes_eq(&self.session, &other.session)
    }

    fn shared_eq(&self, other: &ErasedData) -> (r: bool)
        ensures
            r == (self.module == other.module && self.shared@ == other.shared@),
    {
        self.module == other.module && bytes_eq(&self.shared, &other.shared)
    }
}

} // verus!

//! Recording which parts of a [`ProjectView`] were read, so that a result
//! computed from it can be reused for a later view when those parts did not
//! change.

use vstd::prelude::*;
use crate::edit::{recorded, DataView, DocumentView};
use crate::ids::{is_random_uuid, DataId, DocumentId, ModuleId};
use crate::oplog::{Change, ErasedArgs, PendingChange};
use crate::path::Path;
use crate::project::ChangeBuilder;
use crate::view::{bytes_eq, find_data, find_document, ids_contain, ids_of_module_in, section_of, ErasedData, ProjectView, Section};

verus! {

/// One read access on a view.
#[derive(Debug, Clone, Copy, PartialEq, Eq, Structural)]
pub enum AccessEvent {
    OpenDocument(DocumentId),
    OpenDataById(DataId),
    OpenDataByType(ModuleId),
    OpenDocumentDataById(DocumentId, DataId),
    OpenDocumentDataByType(DocumentId, ModuleId),
    AccessPersistent(DataId),
    AccessPersistentUser(DataId),
    AccessShared(DataId),
    AccessSession(DataId),
}

/// Both views hold the same section `s` of data `id`: both lack the data,
/// or both have it with the same module and the same content.
pub open spec fn same_section(old: ProjectView, new: ProjectView, id: DataId, s: Section) -> bool {
    match (find_data(old.data@, id), find_data(new.data@, id)) {
        (None, None) => true,
        (Some(a), Some(b)) => a.module == b.module && section_of(a, s) == section_of(b, s),
        _ => false,
    }
}

/// Reading the view as `e` did gives the same answer on `old` and `new`.
/// All data of a module is the same set of ids on both, in whatever order
/// the views hold them; a document's data is the same list.
pub open spec fn unchanged_for(old: ProjectView, new: ProjectView, e: AccessEvent) -> bool {
    match e {
        AccessEvent::OpenDocument(d) => old.document(d) == new.document(d),
        AccessEvent::OpenDataById(x) => old.module_of(x) == new.module_of(x),
        AccessEvent::OpenDataByType(m) => old.ids_of_module(m).to_set() == new.ids_of_module(m).to_set(),
        AccessEvent::OpenDocumentDataById(d, x) => match (old.document(d), new.document(d)) {
            (None, None) => true,
            (Some(a), Some(b)) => a.contains(x) == b.contains(x),
            _ => false,
        },
        AccessEvent::OpenDocumentDataByType(d, m) => match (old.document(d), new.document(d)) {
            (None, None) => true,
            (Some(a), Some(b)) => old.filter_by_module(a, m) == new.filter_by_module(b, m),
            _ => false,
        },
        AccessEvent::AccessPersistent(x) => same_section(old, new, x, Section::Persistent),
        AccessEvent::AccessPersistentUser(x) => same_section(old, new, x, Section::PersistentUser),
        AccessEvent::AccessShared(x) => same_section(old, new, x, Section::Shared),
        AccessEvent::AccessSession(x) => same_section(old, new, x, Section::Session),
    }
}

/// A result computed from `old` with the reads `events` still holds for
/// `new`: both views are of the same project, and every read reads the same.
pub open spec fn cache_valid(events: Seq<AccessEvent>, old: ProjectView, new: ProjectView) -> bool {
    old.uuid == new.uuid && forall|i: int| 0 <= i < events.len() ==> unchanged_for(old, new, #[trigger] events[i])
}

/// A log of read accesses, for caching.
#[derive(Debug, Clone)]
pub struct AccessRecorder(pub Vec<AccessEvent>);

impl AccessRecorder {
    /// Appends `access` to the log.
    pub fn track(&mut self, access: AccessEvent)
        ensures
            final(self).0@ == old(self).0@.push(access),
    {
        self.0.push(access);
    }

    /// Hands out the accesses recorded so far as a [`CacheValidator`] and
    /// starts a new, empty log.
    pub fn freeze(&mut self) -> (r: CacheValidator)
        ensures
            r.0@ == old(self).0@,
            final(self).0@ == Seq::<AccessEvent>::empty(),
    {
        let mut events: Vec<AccessEvent> = Vec::new();
        std::mem::swap(&mut events, &mut self.0);
        CacheValidator(events)
    }
}

/// The frozen record of the read accesses made on a view.
#[derive(Debug, Clone)]
pub struct CacheValidator(pub Vec<AccessEvent>);

fn same_ids(a: &Vec<DataId>, b: &Vec<DataId>) -> (r: bool)
    ensures
        r == (a@ == b@),
{
    if a.len() != b.len() {
        return false;
    }
    let mut i: usize = 0;
    while i < a.len()
        invariant
            a.len() == b.len(),
            i <= a.len(),
            forall|k: int| 0 <= k < i ==> a@[k] == b@[k],
        decreases a.len() - i,
    {
        if a[i] != b[i] {
            return false;
        }
        i += 1;
    }
    assert(a@ =~= b@);
    true
}

/// Every id of `a` is in `b`.
fn ids_within(a: &Vec<DataId>, b: &Vec<DataId>) -> (r: bool)
    ensures
        r == (forall|x: DataId| a@.contains(x) ==> b@.contains(x)),
{
    let mut i: usize = 0;
    while i < a.len()
        invariant
            i <= a.len(),
            forall|k: int| 0 <= k < i ==> b@.contains(#[trigger] a@[k]),
        decreases a.len() - i,
    {
        if !ids_contain(b, a[i]) {
            assert(a@.contains(a@[i as int]));
            return false;
        }
        i += 1;
    }
    assert forall|x: DataId| a@.contains(x) implies b@.contains(x) by {
        let k = choose|k: int| 0 <= k < a@.len() && a@[k] == x;
        assert(b@.contains(a@[k]));
    }
    true
}

/// `a` and `b` hold the same ids, in whatever order and however often.
fn same_id_set(a: &Vec<DataId>, b: &Vec<DataId>) -> (r: bool)
    ensures
        r == (a@.to_set() == b@.to_set()),
{
    let ab = ids_within(a, b);
    let ba = ids_within(b, a);
    proof {
        if ab && ba {
            assert(a@.to_set() =~= b@.to_set());
        }
        if a@.to_set() == b@.to_set() {
            assert forall|x: DataId| a@.contains(x) implies b@.contains(x) by {
                assert(a@.to_set().contains(x));
            }
            assert forall|x: DataId| b@.contains(x) implies a@.contains(x) by {
                assert(b@.to_set().contains(x));
            }
        }
    }
    ab && ba
}

fn section_ref(d: &ErasedData, s: Section) -> (r: &Vec<u8>)
    ensures
        r@ == section_of(*d, s),
{
    match s {
        Section::Persistent => &d.persistent,
        Section::PersistentUser => &d.persistent_user,
        Section::Session => &d.session,
        Section::Shared => &d.shared,
    }
}

fn check_section(old_view: &ProjectView, new_view: &ProjectView, id: DataId, s: Section) -> (r: bool)
    ensures
        r == same_section(*old_view, *new_view, id, s),
{
    match (old_view.find_data_entry(id), new_view.find_data_entry(id)) {
        (None, None) => true,
        (Some(a), Some(b)) => a.module == b.module && bytes_eq(section_ref(a, s), section_ref(b, s)),
        _ => false,
    }
}

fn check_document_by_type(
    old_view: &ProjectView,
    new_view: &ProjectView,
    d: DocumentId,
    m: ModuleId,
) -> (r: bool)
    ensures
        r == unchanged_for(*old_view, *new_view, AccessEvent::OpenDocumentDataByType(d, m)),
{
    match (old_view.open_document(d), new_view.open_document(d)) {
        (None, None) => true,
        (Some(a), Some(b)) => {
            let ids_a = old_view.data_of_type_among(&a.data, m);
            let ids_b = new_view.data_of_type_among(&b.data, m);
            same_ids(&ids_a, &ids_b)
        },
        _ => false,
    }
}

fn check_event(old_view: &ProjectView, new_view: &ProjectView, e: AccessEvent) -> (r: bool)
    ensures
        r == unchanged_for(*old_view, *new_view, e),
{
    match e {
        AccessEvent::OpenDocument(d) => match (old_view.open_document(d), new_view.open_document(d)) {
            (None, None) => true,
            (Some(a), Some(b)) => same_ids(&a.data, &b.data),
            _ => false,
        },
        AccessEvent::OpenDataById(x) => match (old_view.find_data_entry(x), new_view.find_data_entry(x)) {
            (None, None) => true,
            (Some(a), Some(b)) => a.module == b.module,
            _ => false,
        },
        AccessEvent::OpenDataByType(m) => {
            let a = old_view.open_data_by_type(m);
            let b = new_view.open_data_by_type(m);
            same_id_set(&a, &b)
        },
        AccessEvent::OpenDocumentDataById(d, x) => match (old_view.open_document(d), new_view.open_document(d)) {
            (None, None) => true,
            (Some(a), Some(b)) => ids_contain(&a.data, x) == ids_contain(&b.data, x),
            _ => false,
        },
        AccessEvent::OpenDocumentDataByType(d, m) => check_document_by_type(old_view, new_view, d, m),
        AccessEvent::AccessPersistent(x) => check_section(old_view, new_view, x, Section::Persistent),
        AccessEvent::AccessPersistentUser(x) => check_section(old_view, new_view, x, Section::PersistentUser),
        AccessEvent::AccessShared(x) => check_section(old_view, new_view, x, Section::Shared),
        AccessEvent::AccessSession(x) => check_section(old_view, new_view, x, Section::Session),
    }
}

impl CacheValidator {
    /// Whether a result computed from `old_view` still holds for `new_view`:
    /// both views are of the same project, and every recorded access reads
    /// the same on both.
    pub fn is_cache_valid(&self, old_view: &ProjectView, new_view: &ProjectView) -> (r: bool)
        ensures
            r == cache_valid(self.0@, *old_view, *new_view),
    {
        if old_view.uuid != new_view.uuid {
            return false;
        }
        let mut i: usize = 0;
        while i < self.0.len()
            invariant
                i <= self.0.len(),
                forall|k: int| 0 <= k < i ==> unchanged_for(*old_view, *new_view, #[trigger] self.0@[k]),
            decreases self.0.len() - i,
        {
            if !check_event(old_view, new_view, self.0[i]) {
                return false;
            }
            i += 1;
        }
        true
    }

    /// Whether any access was recorded.
    pub fn was_accessed(&self) -> (r: bool)
        ensures
            r == (self.0.len() > 0),
    {
        self.0.len() != 0
    }
}

/// A cache follows the sections it read: when its reads include reading a
/// section of data `x`, held by both views, the cache is not valid once the
/// bytes of that section differ between the views; and that read alone
/// reads the same when both hold `x` with the same module and the same
/// bytes in that section.
pub proof fn lemma_read_section_decides(
    events: Seq<AccessEvent>,
    old: ProjectView,
    new: ProjectView,
    i: int,
    x: DataId,
    a: ErasedData,
    b: ErasedData,
)
    requires
        0 <= i < events.len(),
        find_data(old.data@, x) == Some(a),
        find_data(new.data@, x) == Some(b),
    ensures
        events[i] == AccessEvent::AccessPersistent(x) && a.persistent@ != b.persistent@ ==> !cache_valid(
            events,
            old,
            new,
        ),
        events[i] == AccessEvent::AccessPersistentUser(x) && a.persistent_user@ != b.persistent_user@
            ==> !cache_valid(events, old, new),
        events[i] == AccessEvent::AccessSession(x) && a.session@ != b.session@ ==> !cache_valid(events, old, new),
        events[i] == AccessEvent::AccessShared(x) && a.shared@ != b.shared@ ==> !cache_valid(events, old, new),
        (events[i] == AccessEvent::AccessPersistent(x) || events[i] == AccessEvent::AccessPersistentUser(x)
            || events[i] == AccessEvent::AccessSession(x) || events[i] == AccessEvent::AccessShared(x)
            || events[i] == AccessEvent::OpenDataById(x)) && a.module != b.module ==> !cache_valid(events, old, new),
        a.module == b.module && a.persistent@ == b.persistent@ ==> unchanged_for(
            old,
            new,
            AccessEvent::AccessPersistent(x),
        ),
        a.module == b.module && a.persistent_user@ == b.persistent_user@ ==> unchanged_for(
            old,
            new,
            AccessEvent::AccessPersistentUser(x),
        ),
        a.module == b.module && a.session@ == b.session@ ==> unchanged_for(old, new, AccessEvent::AccessSession(x)),
        a.module == b.module && a.shared@ == b.shared@ ==> unchanged_for(old, new, AccessEvent::AccessShared(x)),
{
    if cache_valid(events, old, new) {
        assert(unchanged_for(old, new, events[i]));
    }
}

/// Some entry of `data` holds data `y` of `module`.
pub open spec fn holds_data_of(data: Seq<(DataId, ErasedData)>, y: DataId, module: ModuleId) -> bool {
    exists|k: int| 0 <= k < data.len() && (#[trigger] data[k]).0 == y && data[k].1.module == module
}

/// `y` is among the ids of data of `module` exactly when some entry of
/// `data` holds data `y` of `module`.
proof fn lemma_ids_of_module_in(data: Seq<(DataId, ErasedData)>, module: ModuleId, y: DataId)
    ensures
        ids_of_module_in(data, module).contains(y) <==> holds_data_of(data, y, module),
    decreases data.len(),
{
    if data.len() > 0 {
        lemma_ids_of_module_in(data.drop_last(), module, y);
        let rest = ids_of_module_in(data.drop_last(), module);
        if exists|k: int| 0 <= k < data.len() && (#[trigger] data[k]).0 == y && data[k].1.module == module {
            let k = choose|k: int| 0 <= k < data.len() && (#[trigger] data[k]).0 == y && data[k].1.module == module;
            if k < data.len() - 1 {
                assert(data.drop_last()[k] == data[k]);
                assert(rest.contains(y));
                let t = choose|t: int| 0 <= t < rest.len() && rest[t] == y;
                if data.last().1.module == module {
                    assert(rest.push(data.last().0)[t] == y);
                }
            } else {
                assert(ids_of_module_in(data, module) == rest.push(y));
                assert(rest.push(y)[rest.len() as int] == y);
            }
        }
        if ids_of_module_in(data, module).contains(y) {
            if !rest.contains(y) {
                let t = choose|t: int|
                    0 <= t < ids_of_module_in(data, module).len() && ids_of_module_in(data, module)[t] == y;
                assert(data.last().1.module == module);
                assert(t == rest.len());
                assert(data[data.len() - 1].0 == y);
            } else {
                let k = choose|k: int|
                    0 <= k < data.drop_last().len() && (#[trigger] data.drop_last()[k]).0 == y
                        && data.drop_last()[k].1.module == module;
                assert(data[k] == data.drop_last()[k]);
            }
        }
    }
}

/// A cache follows what else it read: it is not valid for views of another
/// project; nor once data it opened by id is there in one view and not in
/// the other; nor once a document it opened holds other data, or is there
/// in one view only; nor once, after it read all data of a module, one
/// view holds data of that module that the other does not. And a read of
/// all data of a module reads the same when both views hold data of that
/// module under the same ids, in whatever order.
pub proof fn lemma_read_structure_decides(
    events: Seq<AccessEvent>,
    old: ProjectView,
    new: ProjectView,
    i: int,
)
    requires
        0 <= i < events.len(),
    ensures
        old.uuid != new.uuid ==> !cache_valid(events, old, new),
        events[i] matches AccessEvent::OpenDataById(x) && (find_data(old.data@, x) is Some) != (find_data(
            new.data@,
            x,
        ) is Some) ==> !cache_valid(events, old, new),
        events[i] matches AccessEvent::OpenDocument(d) && find_document(old.documents@, d) != find_document(
            new.documents@,
            d,
        ) ==> !cache_valid(events, old, new),
        events[i] matches AccessEvent::OpenDataByType(m) && (exists|j: int|
            0 <= j < new.data@.len() && (#[trigger] new.data@[j]).1.module == m && forall|k: int|
                0 <= k < old.data@.len() ==> !(old.data@[k].0 == new.data@[j].0 && old.data@[k].1.module == m))
            ==> !cache_valid(events, old, new),
        events[i] matches AccessEvent::OpenDataByType(m) && (exists|j: int|
            0 <= j < old.data@.len() && (#[trigger] old.data@[j]).1.module == m && forall|k: int|
                0 <= k < new.data@.len() ==> !(new.data@[k].0 == old.data@[j].0 && new.data@[k].1.module == m))
            ==> !cache_valid(events, old, new),
        forall|m: ModuleId|
            (forall|y: DataId| #[trigger] holds_data_of(old.data@, y, m) <==> holds_data_of(new.data@, y, m))
                ==> #[trigger] unchanged_for(old, new, AccessEvent::OpenDataByType(m)),
{
    if cache_valid(events, old, new) {
        assert(unchanged_for(old, new, events[i]));
        if let AccessEvent::OpenDataByType(m) = events[i] {
            let so = old.ids_of_module(m).to_set();
            let sn = new.ids_of_module(m).to_set();
            assert(so == sn);
            if exists|j: int|
                0 <= j < new.data@.len() && (#[trigger] new.data@[j]).1.module == m && forall|k: int|
                    0 <= k < old.data@.len() ==> !(old.data@[k].0 == new.data@[j].0 && old.data@[k].1.module == m) {
                let j = choose|j: int|
                    0 <= j < new.data@.len() && (#[trigger] new.data@[j]).1.module == m && forall|k: int|
                        0 <= k < old.data@.len() ==> !(old.data@[k].0 == new.data@[j].0 && old.data@[k].1.module
                            == m);
                let y = new.data@[j].0;
                lemma_ids_of_module_in(new.data@, m, y);
                lemma_ids_of_module_in(old.data@, m, y);
                assert(sn.contains(y));
            }
            if exists|j: int|
                0 <= j < old.data@.len() && (#[trigger] old.data@[j]).1.module == m && forall|k: int|
                    0 <= k < new.data@.len() ==> !(new.data@[k].0 == old.data@[j].0 && new.data@[k].1.module == m) {
                let j = choose|j: int|
                    0 <= j < old.data@.len() && (#[trigger] old.data@[j]).1.module == m && forall|k: int|
                        0 <= k < new.data@.len() ==> !(new.data@[k].0 == old.data@[j].0 && new.data@[k].1.module
                            == m);
                let y = old.data@[j].0;
                lemma_ids_of_module_in(new.data@, m, y);
                lemma_ids_of_module_in(old.data@, m, y);
                assert(so.contains(y));
            }
        }
    }
    assert forall|m: ModuleId|
        (forall|y: DataId| #[trigger] holds_data_of(old.data@, y, m) <==> holds_data_of(new.data@, y, m))
            implies #[trigger] unchanged_for(old, new, AccessEvent::OpenDataByType(m)) by {
        assert forall|y: DataId| old.ids_of_module(m).to_set().contains(y) == new.ids_of_module(m).to_set().contains(y) by {
            lemma_ids_of_module_in(new.data@, m, y);
            lemma_ids_of_module_in(old.data@, m, y);
        }
        assert(old.ids_of_module(m).to_set() =~= new.ids_of_module(m).to_set());
    }
}

/// A cache is always valid for the very view it was computed from.
pub proof fn lemma_cache_valid_for_same_view(v: ProjectView, events: Seq<AccessEvent>)
    ensures
        forall|i: int| 0 <= i < events.len() ==> unchanged_for(v, v, #[trigger] events[i]),
{
}

/// A [`ProjectView`] that records every read made through it, and through
/// the documents and data opened from it.
#[derive(Debug)]
pub struct TrackedProjectView<'a> {
    pub view: &'a ProjectView,
    pub recorder: AccessRecorder,
}

/// A document opened from a [`TrackedProjectView`], which records the reads
/// made through it there.
#[derive(Debug)]
pub struct TrackedDocumentView<'b, 'a> {
    pub id: DocumentId,
    /// The ids of the document's data.
    pub data: &'a Vec<DataId>,
    pub project: &'b mut TrackedProjectView<'a>,
}

/// A data opened from a [`TrackedProjectView`], which records the reads
/// made through it there.
#[derive(Debug)]
pub struct TrackedDataView<'b, 'a> {
    pub id: DataId,
    pub data: &'a ErasedData,
    pub project: &'b mut TrackedProjectView<'a>,
}

impl<'a> TrackedProjectView<'a> {
    /// Starts tracking reads on `view`, with an empty record.
    pub fn new(view: &'a ProjectView) -> (r: TrackedProjectView<'a>)
        ensures
            r.view == view,
            r.recorder.0@ == Seq::<AccessEvent>::empty(),
    {
        TrackedProjectView { view, recorder: AccessRecorder(Vec::new()) }
    }

    /// Opens document `id`, recording the access; the reads made through
    /// the document are recorded here too.
    pub fn open_document<'b>(&'b mut self, id: DocumentId) -> (r: Option<TrackedDocumentView<'b, 'a>>)
        ensures
            match r {
                Some(d) => {
                    &&& d.id == id
                    &&& old(self).view.document(id) == Some(d.data@)
                    &&& d.project.view == old(self).view
                    &&& d.project.recorder.0@ == old(self).recorder.0@.push(AccessEvent::OpenDocument(id))
                    &&& *final(self) == *final(d.project)
                },
                None => {
                    &&& old(self).view.document(id) is None
                    &&& final(self).view == old(self).view
                    &&& final(self).recorder.0@ == old(self).recorder.0@.push(AccessEvent::OpenDocument(id))
                },
            },
    {
        self.recorder.track(AccessEvent::OpenDocument(id));
        match self.view.open_document(id) {
            Some(doc) => Some(TrackedDocumentView { id, data: &doc.data, project: self }),
            None => None,
        }
    }

    /// Opens data `id` of `module`, recording the access; the reads made
    /// through the data are recorded here too.
    pub fn open_data_by_id<'b>(&'b mut self, id: DataId, module: ModuleId) -> (r: Option<TrackedDataView<'b, 'a>>)
        ensures
            match r {
                Some(d) => {
                    &&& d.id == id
                    &&& find_data(old(self).view.data@, id) == Some(*d.data)
                    &&& d.data.module == module
                    &&& d.project.view == old(self).view
                    &&& d.project.recorder.0@ == old(self).recorder.0@.push(AccessEvent::OpenDataById(id))
                    &&& *final(self) == *final(d.project)
                },
                None => {
                    &&& old(self).view.module_of(id) != Some(module)
                    &&& final(self).view == old(self).view
                    &&& final(self).recorder.0@ == old(self).recorder.0@.push(AccessEvent::OpenDataById(id))
                },
            },
    {
        self.recorder.track(AccessEvent::OpenDataById(id));
        match self.view.open_data_by_id(id, module) {
            Some(d) => Some(TrackedDataView { id, data: d, project: self }),
            None => None,
        }
    }

    /// The ids of all data of `module`, recording the access.
    pub fn open_data_by_type(&mut self, module: ModuleId) -> (r: Vec<DataId>)
        ensures
            final(self).view == old(self).view,
            final(self).recorder.0@ == old(self).recorder.0@.push(AccessEvent::OpenDataByType(module)),
            r@ == old(self).view.ids_of_module(module),
    {
        self.recorder.track(AccessEvent::OpenDataByType(module));
        self.view.open_data_by_type(module)
    }

    /// Records the creation of an empty document at `path` in `cb`, as
    /// [`ProjectView::create_document`] does; nothing is read.
    pub fn create_document(&self, cb: &mut ChangeBuilder, path: Path) -> (r: DocumentId)
        ensures
            is_random_uuid(r.0),
            recorded(*old(cb), *final(cb), PendingChange::Change(Change::CreateDocument { id: r, path })),
    {
        self.view.create_document(cb, path)
    }

    /// Records the creation of data of `module` that belongs to no document
    /// in `cb`, as [`ProjectView::create_data`] does; nothing is read.
    pub fn create_data(&self, cb: &mut ChangeBuilder, module: ModuleId) -> (r: DataId)
        ensures
            is_random_uuid(r.0),
            recorded(*old(cb), *final(cb), PendingChange::Change(Change::CreateData { id: r, module, owner: None })),
    {
        self.view.create_data(cb, module)
    }
}

impl<'b, 'a> TrackedDocumentView<'b, 'a> {
    /// Data `data_id` of `module`, if this document holds it, recording the
    /// access.
    pub fn open_data_by_id<'c>(&'c mut self, data_id: DataId, module: ModuleId) -> (r: Option<
        TrackedDataView<'c, 'a>,
    >)
        ensures
            final(self).id == old(self).id,
            final(self).data == old(self).data,
            *final(final(self).project) == *final(old(self).project),
            match r {
                Some(d) => {
                    &&& d.id == data_id
                    &&& old(self).data@.contains(data_id)
                    &&& find_data(old(self).project.view.data@, data_id) == Some(*d.data)
                    &&& d.data.module == module
                    &&& d.project.view == old(self).project.view
                    &&& d.project.recorder.0@ == old(self).project.recorder.0@.push(
                        AccessEvent::OpenDocumentDataById(old(self).id, data_id),
                    )
                    &&& *final(self).project == *final(d.project)
                },
                None => {
                    &&& !old(self).data@.contains(data_id) || old(self).project.view.module_of(data_id) != Some(module)
                    &&& final(self).project.view == old(self).project.view
                    &&& final(self).project.recorder.0@ == old(self).project.recorder.0@.push(
                        AccessEvent::OpenDocumentDataById(old(self).id, data_id),
                    )
                },
            },
    {
        self.project.recorder.track(AccessEvent::OpenDocumentDataById(self.id, data_id));
        if ids_contain(self.data, data_id) {
            match self.project.view.open_data_by_id(data_id, module) {
                Some(d) => Some(TrackedDataView { id: data_id, data: d, project: &mut *self.project }),
                None => None,
            }
        } else {
            None
        }
    }

    /// The ids of the data of `module` in this document, in its order,
    /// recording the access.
    pub fn open_data_by_type(&mut self, module: ModuleId) -> (r: Vec<DataId>)
        ensures
            final(self).id == old(self).id,
            final(self).data == old(self).data,
            *final(final(self).project) == *final(old(self).project),
            final(self).project.view == old(self).project.view,
            final(self).project.recorder.0@ == old(self).project.recorder.0@.push(
                AccessEvent::OpenDocumentDataByType(old(self).id, module),
            ),
            r@ == old(self).project.view.filter_by_module(old(self).data@, module),
    {
        self.project.recorder.track(AccessEvent::OpenDocumentDataByType(self.id, module));
        self.project.view.data_of_type_among(self.data, module)
    }

    /// Records the creation of data of `module` in this document in `cb`, as
    /// [`DocumentView::create_data`] does; nothing is read.
    pub fn create_data(&self, cb: &mut ChangeBuilder, module: ModuleId) -> (r: DataId)
        ensures
            is_random_uuid(r.0),
            recorded(
                *old(cb),
                *final(cb),
                PendingChange::Change(Change::CreateData { id: r, module, owner: Some(self.id) }),
            ),
    {
        DocumentView { id: self.id, project: self.project.view }.create_data(cb, module)
    }

    /// Records the deletion of this document and of all its data in `cb`.
    pub fn delete(&self, cb: &mut ChangeBuilder)
        ensures
            recorded(*old(cb), *final(cb), PendingChange::Change(Change::DeleteDocument(self.id))),
    {
        DocumentView { id: self.id, project: self.project.view }.delete(cb)
    }
}

impl<'b, 'a> TrackedDataView<'b, 'a> {
    /// Section `s` of this data, recording the access.
    fn read(&mut self, s: Section) -> (r: &'a Vec<u8>)
        ensures
            r@ == section_of(*old(self).data, s),
            final(self).id == old(self).id,
            final(self).data == old(self).data,
            *final(final(self).project) == *final(old(self).project),
            final(self).project.view == old(self).project.view,
            final(self).project.recorder.0@ == old(self).project.recorder.0@.push(section_event(old(self).id, s)),
    {
        let e = match s {
            Section::Persistent => AccessEvent::AccessPersistent(self.id),
            Section::PersistentUser => AccessEvent::AccessPersistentUser(self.id),
            Section::Session => AccessEvent::AccessSession(self.id),
            Section::Shared => AccessEvent::AccessShared(self.id),
        };
        self.project.recorder.track(e);
        section_ref(self.data, s)
    }

    /// The persistent section, recording the access.
    pub fn persistent(&mut self) -> (r: &'a Vec<u8>)
        ensures
            r@ == old(self).data.persistent@,
            final(self).id == old(self).id,
            final(self).data == old(self).data,
            *final(final(self).project) == *final(old(self).project),
            final(self).project.view == old(self).project.view,
            final(self).project.recorder.0@ == old(self).project.recorder.0@.push(
                AccessEvent::AccessPersistent(old(self).id),
            ),
    {
        self.read(Section::Persistent)
    }

    /// The persistent section of the viewing user, recording the access.
    pub fn persistent_user(&mut self) -> (r: &'a Vec<u8>)
        ensures
            r@ == old(self).data.persistent_user@,
            final(self).id == old(self).id,
            final(self).data == old(self).data,
            *final(final(self).project) == *final(old(self).project),
            final(self).project.view == old(self).project.view,
            final(self).project.recorder.0@ == old(self).project.recorder.0@.push(
                AccessEvent::AccessPersistentUser(old(self).id),
            ),
    {
        self.read(Section::PersistentUser)
    }

    /// The shared section, recording the access.
    pub fn shared_data(&mut self) -> (r: &'a Vec<u8>)
        ensures
            r@ == old(self).data.shared@,
            final(self).id == old(self).id,
            final(self).data == old(self).data,
            *final(final(self).project) == *final(old(self).project),
            final(self).project.view == old(self).project.view,
            final(self).project.recorder.0@ == old(self).project.recorder.0@.push(
                AccessEvent::AccessShared(old(self).id),
            ),
    {
        self.read(Section::Shared)
    }

    /// The session section, recording the access.
    pub fn session_data(&mut self) -> (r: &'a Vec<u8>)
        ensures
            r@ == old(self).data.session@,
            final(self).id == old(self).id,
            final(self).data == old(self).data,
            *final(final(self).project) == *final(old(self).project),
            final(self).project.view == old(self).project.view,
            final(self).project.recorder.0@ == old(self).project.recorder.0@.push(
                AccessEvent::AccessSession(old(self).id),
            ),
    {
        self.read(Section::Session)
    }

    /// This data as a [`DataView`], on which changes are recorded without
    /// reading anything.
    fn data_view(&self) -> (r: DataView<'a>)
        ensures
            r.id == self.id,
            r.module == self.data.module,
    {
        DataView { id: self.id, module: self.data.module, project: self.project.view }
    }

    /// Records a transaction on the persistent section in `cb`.
    pub fn apply_persistent(&self, args: Vec<u8>, cb: &mut ChangeBuilder)
        ensures
            recorded(
                *old(cb),
                *final(cb),
                PendingChange::Change(
                    Change::Transaction { id: self.id, args: ErasedArgs { module: self.data.module, data: args } },
                ),
            ),
    {
        self.data_view().apply_persistent(args, cb)
    }

    /// Records a transaction on the persistent section of the viewing user in `cb`.
    pub fn apply_persistent_user(&self, args: Vec<u8>, cb: &mut ChangeBuilder)
        ensures
            recorded(
                *old(cb),
                *final(cb),
                PendingChange::Change(
                    Change::UserTransaction { id: self.id, args: ErasedArgs { module: self.data.module, data: args } },
                ),
            ),
    {
        self.data_view().apply_persistent_user(args, cb)
    }

    /// Records a transaction on the session section in `cb`.
    pub fn apply_session(&self, args: Vec<u8>, cb: &mut ChangeBuilder)
        ensures
            recorded(
                *old(cb),
                *final(cb),
                PendingChange::SessionTransaction { id: self.id, args: ErasedArgs { module: self.data.module, data: args } },
            ),
    {
        self.data_view().apply_session(args, cb)
    }

    /// Records a transaction on the shared section in `cb`.
    pub fn apply_shared(&self, args: Vec<u8>, cb: &mut ChangeBuilder)
        ensures
            recorded(
                *old(cb),
                *final(cb),
                PendingChange::SharedTransaction { id: self.id, args: ErasedArgs { module: self.data.module, data: args } },
            ),
    {
        self.data_view().apply_shared(args, cb)
    }

    /// Records the deletion of this data in `cb`.
    pub fn delete(&self, cb: &mut ChangeBuilder)
        ensures
            recorded(*old(cb), *final(cb), PendingChange::Change(Change::DeleteData(self.id))),
    {
        self.data_view().delete(cb)
    }

    /// Records moving this data into document `new_owner` in `cb`.
    pub fn move_to_document(&self, new_owner: DocumentId, cb: &mut ChangeBuilder)
        ensures
            recorded(
                *old(cb),
                *final(cb),
                PendingChange::Change(Change::MoveData { id: self.id, new_owner: Some(new_owner) }),
            ),
    {
        self.data_view().move_to_document(new_owner, cb)
    }

    /// Records taking this data out of every document in `cb`.
    pub fn make_orphan(&self, cb: &mut ChangeBuilder)
        ensures
            recorded(*old(cb), *final(cb), PendingChange::Change(Change::MoveData { id: self.id, new_owner: None })),
    {
        self.data_view().make_orphan(cb)
    }
}

/// The access event recorded when section `s` of data `id` is read.
pub open spec fn section_event(id: DataId, s: Section) -> AccessEvent {
    match s {
        Section::Persistent => AccessEvent::AccessPersistent(id),
        Section::PersistentUser => AccessEvent::AccessPersistentUser(id),
        Section::Session => AccessEvent::AccessSession(id),
        Section::Shared => AccessEvent::AccessShared(id),
    }
}

} // verus!

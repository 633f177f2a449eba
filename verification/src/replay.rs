//! Rebuilding a [`ProjectView`] by replaying a project's log.
//!
//! Documents and data are kept in association lists (a key appears at most
//! once, at its first position). What a module does with the encoded content
//! of its data is the module's code: the [`ModuleCode`] that the application
//! implements for the modules it registers.

use vstd::prelude::*;
use crate::ids::{BranchId, DataId, DocumentId, ModuleId, SessionId, UserId};
use crate::oplog::{Change, ErasedArgs, LogEntry, LogPayload};
use crate::resolve::{
    active_positions, live_merges_index, merge_triples, op_is_visible, op_visible, payloads, per_session_active_set,
    MergeIndex,
};
use crate::project::{ModuleRegistry, ModuleRegistryError, Project};
use crate::view::{section_of, Document, ErasedData, ErasedSection, ProjectView, Section};

verus! {

broadcast use vstd::seq_lib::group_seq_properties;

// ---------------------------------------------------------------------------
// The code of the modules
// ---------------------------------------------------------------------------

/// The code of the modules whose data a project holds, implemented by the
/// application for every module it registers.
///
/// Each section of a data is held encoded; only the module's code knows what
/// the bytes mean, what a fresh section holds and what a transaction does.
/// An implementation states both as spec functions, and its methods return
/// what they state; [`ValueModules`] is one.
pub trait ModuleCode {
    /// The encoded default content of section `s` of fresh data of `module`.
    spec fn init_spec(&self, module: ModuleId, s: Section) -> Seq<u8>;

    /// The content of section `s` of data of `module` after applying the
    /// encoded transaction `args` to the content `state`, or the error with
    /// which the module refuses the arguments.
    spec fn apply_spec(&self, module: ModuleId, s: Section, state: Seq<u8>, args: Seq<u8>) -> Result<
        Seq<u8>,
        ModuleRegistryError,
    >;

    /// The encoded default content of section `s` of fresh data of `module`.
    fn init_section(&self, module: ModuleId, s: Section) -> (r: Vec<u8>)
        ensures
            r@ == self.init_spec(module, s),
    ;

    /// The content of section `s` of data of `module` after applying the
    /// encoded transaction `args` to `state`, or the error with which the
    /// module refuses the arguments.
    fn apply_transaction(&self, module: ModuleId, s: Section, state: &Vec<u8>, args: &Vec<u8>) -> (r: Result<
        Vec<u8>,
        ModuleRegistryError,
    >)
        ensures
            match r {
                Ok(v) => self.apply_spec(module, s, state@, args@) == Ok::<Seq<u8>, ModuleRegistryError>(v@),
                Err(e) => self.apply_spec(module, s, state@, args@) == Err::<Seq<u8>, ModuleRegistryError>(e),
            },
    ;
}

/// Module code whose sections each hold one four-byte value, zero in fresh
/// data, which a transaction carrying four bytes replaces; other arguments
/// are refused.
pub struct ValueModules;

impl ModuleCode for ValueModules {
    open spec fn init_spec(&self, module: ModuleId, s: Section) -> Seq<u8> {
        seq![0u8, 0u8, 0u8, 0u8]
    }

    open spec fn apply_spec(&self, module: ModuleId, s: Section, state: Seq<u8>, args: Seq<u8>) -> Result<
        Seq<u8>,
        ModuleRegistryError,
    > {
        if args.len() == 4 {
            Ok(args)
        } else {
            Err(ModuleRegistryError::ArgsDowncastError)
        }
    }

    fn init_section(&self, module: ModuleId, s: Section) -> (r: Vec<u8>) {
        let r: Vec<u8> = vec![0u8, 0u8, 0u8, 0u8];
        assert(r@ =~= seq![0u8, 0u8, 0u8, 0u8]);
        r
    }

    fn apply_transaction(&self, module: ModuleId, s: Section, state: &Vec<u8>, args: &Vec<u8>) -> (r: Result<
        Vec<u8>,
        ModuleRegistryError,
    >) {
        if args.len() == 4 {
            Ok(copy_bytes(args))
        } else {
            Err(ModuleRegistryError::ArgsDowncastError)
        }
    }
}

// ---------------------------------------------------------------------------
// Models
// ---------------------------------------------------------------------------

/// A data as the specification sees it: its module and the encoded content
/// of its four sections.
#[verifier::ext_equal]
pub struct DataModel {
    pub module: ModuleId,
    pub persistent: Seq<u8>,
    pub persistent_user: Seq<u8>,
    pub session: Seq<u8>,
    pub shared: Seq<u8>,
}

/// The model of `d`.
pub open spec fn data_model(d: ErasedData) -> DataModel {
    DataModel {
        module: d.module,
        persistent: d.persistent@,
        persistent_user: d.persistent_user@,
        session: d.session@,
        shared: d.shared@,
    }
}

/// The content of section `s` of `d`.
pub open spec fn model_section(d: DataModel, s: Section) -> Seq<u8> {
    match s {
        Section::Persistent => d.persistent,
        Section::PersistentUser => d.persistent_user,
        Section::Session => d.session,
        Section::Shared => d.shared,
    }
}

/// `d` with section `s` holding `b`.
pub open spec fn with_section(d: DataModel, s: Section, b: Seq<u8>) -> DataModel {
    match s {
        Section::Persistent => DataModel {
            module: d.module,
            persistent: b,
            persistent_user: d.persistent_user,
            session: d.session,
            shared: d.shared,
        },
        Section::PersistentUser => DataModel {
            module: d.module,
            persistent: d.persistent,
            persistent_user: b,
            session: d.session,
            shared: d.shared,
        },
        Section::Session => DataModel {
            module: d.module,
            persistent: d.persistent,
            persistent_user: d.persistent_user,
            session: b,
            shared: d.shared,
        },
        Section::Shared => DataModel {
            module: d.module,
            persistent: d.persistent,
            persistent_user: d.persistent_user,
            session: d.session,
            shared: b,
        },
    }
}

/// Fresh data of `module`: every section at the module's default.
pub open spec fn fresh_model<M: ModuleCode>(code: M, module: ModuleId) -> DataModel {
    DataModel {
        module,
        persistent: code.init_spec(module, Section::Persistent),
        persistent_user: code.init_spec(module, Section::PersistentUser),
        session: code.init_spec(module, Section::Session),
        shared: code.init_spec(module, Section::Shared),
    }
}

/// `data` after the transaction `args` on section `s` of data `id`: the
/// first data `id`, when it is of the module of `args`, holds in that
/// section what the module's code makes of it; a refused transaction, or
/// one on missing data or data of another module, changes nothing.
pub open spec fn transact_model<M: ModuleCode>(
    code: M,
    data: Seq<(DataId, DataModel)>,
    id: DataId,
    args: ErasedArgs,
    s: Section,
) -> Seq<(DataId, DataModel)> {
    let p = first_pos(data, id);
    if p >= 0 && data[p].1.module == args.module {
        match code.apply_spec(args.module, s, model_section(data[p].1, s), args.data@) {
            Ok(v) => data.update(p, (id, with_section(data[p].1, s, v))),
            Err(_) => data,
        }
    } else {
        data
    }
}

/// Documents with the ids of their data, and data with their module and
/// content, in order.
pub struct ViewModel {
    pub documents: Seq<(DocumentId, Seq<DataId>)>,
    pub data: Seq<(DataId, DataModel)>,
}

/// The documents of a view with the ids of their data.
pub open spec fn documents_model(docs: Seq<(DocumentId, Document)>) -> Seq<(DocumentId, Seq<DataId>)> {
    docs.map_values(|p: (DocumentId, Document)| (p.0, p.1.data@))
}

/// The data of a view with their module and content.
pub open spec fn data_models(data: Seq<(DataId, ErasedData)>) -> Seq<(DataId, DataModel)> {
    data.map_values(|p: (DataId, ErasedData)| (p.0, data_model(p.1)))
}

/// The model of a view's documents and data.
pub open spec fn view_model(docs: Seq<(DocumentId, Document)>, data: Seq<(DataId, ErasedData)>) -> ViewModel {
    ViewModel { documents: documents_model(docs), data: data_models(data) }
}

// ---------------------------------------------------------------------------
// Association lists
// ---------------------------------------------------------------------------

/// Position of the first entry with key `k`, or `-1`.
pub open spec fn first_pos<K, V>(s: Seq<(K, V)>, k: K) -> int
    decreases s.len(),
{
    if s.len() == 0 {
        -1
    } else {
        let r = first_pos(s.drop_last(), k);
        if r >= 0 {
            r
        } else if s.last().0 == k {
            s.len() - 1
        } else {
            -1
        }
    }
}

/// `first_pos` is the first position holding `k`, or `-1` when none does.
pub proof fn lemma_first_pos<K, V>(s: Seq<(K, V)>, k: K)
    ensures
        -1 <= first_pos(s, k) < s.len(),
        first_pos(s, k) >= 0 ==> s[first_pos(s, k)].0 == k,
        forall|j: int|
            0 <= j < s.len() && (first_pos(s, k) < 0 || j < first_pos(s, k)) ==> (#[trigger] s[j]).0 != k,
    decreases s.len(),
{
    if s.len() > 0 {
        lemma_first_pos(s.drop_last(), k);
        assert forall|j: int|
            0 <= j < s.len() && (first_pos(s, k) < 0 || j < first_pos(s, k)) implies (#[trigger] s[j]).0 != k by {
            if j < s.len() - 1 {
                assert(s.drop_last()[j] == s[j]);
            }
        }
    }
}

/// `s` with `(k, v)` at the first position of `k`, or appended when `k` is new.
pub open spec fn assoc_set<K, V>(s: Seq<(K, V)>, k: K, v: V) -> Seq<(K, V)> {
    let p = first_pos(s, k);
    if p >= 0 {
        s.update(p, (k, v))
    } else {
        s.push((k, v))
    }
}

/// `s` without the first entry of `k`.
pub open spec fn assoc_remove<K, V>(s: Seq<(K, V)>, k: K) -> Seq<(K, V)> {
    let p = first_pos(s, k);
    if p >= 0 {
        s.remove(p)
    } else {
        s
    }
}

/// `s` without the first entry of each key of `ks`, taken in order.
pub open spec fn assoc_remove_all<K, V>(s: Seq<(K, V)>, ks: Seq<K>) -> Seq<(K, V)>
    decreases ks.len(),
{
    if ks.len() == 0 {
        s
    } else {
        assoc_remove(assoc_remove_all(s, ks.drop_last()), ks.last())
    }
}

/// `ids` without any occurrence of `x`.
pub open spec fn without(ids: Seq<DataId>, x: DataId) -> Seq<DataId>
    decreases ids.len(),
{
    if ids.len() == 0 {
        seq![]
    } else if ids.last() == x {
        without(ids.drop_last(), x)
    } else {
        without(ids.drop_last(), x).push(ids.last())
    }
}

/// Every document without any occurrence of `x` among its data.
pub open spec fn documents_without(docs: Seq<(DocumentId, Seq<DataId>)>, x: DataId) -> Seq<
    (DocumentId, Seq<DataId>),
> {
    docs.map_values(|p: (DocumentId, Seq<DataId>)| (p.0, without(p.1, x)))
}

/// `docs` with `id` appended to document `owner`, which is created empty first when missing.
pub open spec fn documents_push(docs: Seq<(DocumentId, Seq<DataId>)>, owner: DocumentId, id: DataId) -> Seq<
    (DocumentId, Seq<DataId>),
> {
    let p = first_pos(docs, owner);
    if p >= 0 {
        docs.update(p, (owner, docs[p].1.push(id)))
    } else {
        docs.push((owner, seq![id]))
    }
}

// ---------------------------------------------------------------------------
// Executable association-list operations
// ---------------------------------------------------------------------------

/// Position of the first document `id`.
fn document_pos(docs: &Vec<(DocumentId, Document)>, id: DocumentId) -> (r: Option<usize>)
    ensures
        match r {
            Some(i) => i < docs.len() && first_pos(documents_model(docs@), id) == i as int,
            None => first_pos(documents_model(docs@), id) == -1,
        },
{
    let ghost m = documents_model(docs@);
    proof {
        lemma_first_pos(m, id);
    }
    let mut i: usize = 0;
    while i < docs.len()
        invariant
            i <= docs.len(),
            m == documents_model(docs@),
            forall|j: int| 0 <= j < i ==> (#[trigger] docs@[j]).0 != id,
        decreases docs.len() - i,
    {
        if docs[i].0 == id {
            assert(m[i as int].0 == id);
            assert forall|j: int| 0 <= j < i implies (#[trigger] m[j]).0 != id by {
                assert(m[j].0 == docs@[j].0);
            }
            proof {
                lemma_first_pos(m, id);
            }
            return Some(i);
        }
        i += 1;
    }
    assert forall|j: int| 0 <= j < m.len() implies (#[trigger] m[j]).0 != id by {
        assert(m[j].0 == docs@[j].0);
    }
    None
}

/// Position of the first data `id`.
fn data_pos(data: &Vec<(DataId, ErasedData)>, id: DataId) -> (r: Option<usize>)
    ensures
        match r {
            Some(i) => i < data.len() && first_pos(data_models(data@), id) == i as int,
            None => first_pos(data_models(data@), id) == -1,
        },
{
    let ghost m = data_models(data@);
    proof {
        lemma_first_pos(m, id);
    }
    let mut i: usize = 0;
    while i < data.len()
        invariant
            i <= data.len(),
            m == data_models(data@),
            forall|j: int| 0 <= j < i ==> (#[trigger] data@[j]).0 != id,
        decreases data.len() - i,
    {
        if data[i].0 == id {
            assert(m[i as int].0 == id);
            assert forall|j: int| 0 <= j < i implies (#[trigger] m[j]).0 != id by {
                assert(m[j].0 == data@[j].0);
            }
            proof {
                lemma_first_pos(m, id);
            }
            return Some(i);
        }
        i += 1;
    }
    assert forall|j: int| 0 <= j < m.len() implies (#[trigger] m[j]).0 != id by {
        assert(m[j].0 == data@[j].0);
    }
    None
}

/// Makes document `id` empty, creating it when missing.
fn set_empty_document(docs: &mut Vec<(DocumentId, Document)>, id: DocumentId)
    ensures
        documents_model(final(docs)@) == assoc_set(documents_model(old(docs)@), id, Seq::<DataId>::empty()),
{
    let ghost m = documents_model(docs@);
    let empty = Document { data: Vec::new() };
    match document_pos(docs, id) {
        Some(i) => {
            docs.set(i, (id, empty));
            assert(documents_model(docs@) =~= m.update(i as int, (id, Seq::<DataId>::empty())));
        },
        None => {
            docs.push((id, empty));
            assert(documents_model(docs@) =~= m.push((id, Seq::<DataId>::empty())));
        },
    }
}

/// Removes document `id`, handing out its data ids when it existed.
fn remove_document(docs: &mut Vec<(DocumentId, Document)>, id: DocumentId) -> (r: Option<Vec<DataId>>)
    ensures
        documents_model(final(docs)@) == assoc_remove(documents_model(old(docs)@), id),
        match r {
            Some(ids) => first_pos(documents_model(old(docs)@), id) >= 0 && ids@ == documents_model(
                old(docs)@,
            )[first_pos(documents_model(old(docs)@), id)].1,
            None => first_pos(documents_model(old(docs)@), id) < 0,
        },
{
    let ghost m = documents_model(docs@);
    match document_pos(docs, id) {
        Some(i) => {
            let (_, doc) = docs.remove(i);
            assert(documents_model(docs@) =~= m.remove(i as int));
            Some(doc.data)
        },
        None => None,
    }
}

/// Removes the first data `id`, if any.
fn remove_data(data: &mut Vec<(DataId, ErasedData)>, id: DataId)
    ensures
        data_models(final(data)@) == assoc_remove(data_models(old(data)@), id),
{
    let ghost m = data_models(data@);
    match data_pos(data, id) {
        Some(i) => {
            let _ = data.remove(i);
            assert(data_models(data@) =~= m.remove(i as int));
        },
        None => {},
    }
}

/// Removes the first data of each id of `ids`, in order.
fn remove_data_ids(data: &mut Vec<(DataId, ErasedData)>, ids: &Vec<DataId>)
    ensures
        data_models(final(data)@) == assoc_remove_all(data_models(old(data)@), ids@),
{
    let ghost m = data_models(data@);
    let mut k: usize = 0;
    while k < ids.len()
        invariant
            k <= ids.len(),
            data_models(data@) == assoc_remove_all(m, ids@.take(k as int)),
        decreases ids.len() - k,
    {
        assert(ids@.take(k + 1).drop_last() == ids@.take(k as int));
        remove_data(data, ids[k]);
        k += 1;
    }
    assert(ids@.take(k as int) == ids@);
}

/// Sets data `id` to `d`, in place when it exists, appended otherwise.
fn set_data(data: &mut Vec<(DataId, ErasedData)>, id: DataId, d: ErasedData)
    ensures
        data_models(final(data)@) == assoc_set(data_models(old(data)@), id, data_model(d)),
{
    let ghost m = data_models(data@);
    let ghost dm = data_model(d);
    match data_pos(data, id) {
        Some(i) => {
            data.set(i, (id, d));
            assert(data_models(data@) =~= m.update(i as int, (id, dm)));
        },
        None => {
            data.push((id, d));
            assert(data_models(data@) =~= m.push((id, dm)));
        },
    }
}

/// Appends `id` to document `owner`, creating the document when missing.
fn push_to_document(docs: &mut Vec<(DocumentId, Document)>, owner: DocumentId, id: DataId)
    ensures
        documents_model(final(docs)@) == documents_push(documents_model(old(docs)@), owner, id),
{
    let ghost m = documents_model(docs@);
    match document_pos(docs, owner) {
        Some(i) => {
            proof {
                lemma_first_pos(m, owner);
            }
            let ghost before = docs@;
            let (k, mut doc) = docs.remove(i);
            assert(m[i as int] == (k, doc.data@));
            doc.data.push(id);
            docs.insert(i, (k, doc));
            assert(docs@ =~= before.update(i as int, (k, doc)));
            assert(documents_model(docs@) =~= m.update(i as int, (owner, m[i as int].1.push(id))));
        },
        None => {
            let mut ids: Vec<DataId> = Vec::new();
            ids.push(id);
            assert(ids@ =~= seq![id]);
            docs.push((owner, Document { data: ids }));
            assert(documents_model(docs@) =~= m.push((owner, seq![id])));
        },
    }
}

/// `ids` without any occurrence of `x`.
fn ids_without(ids: &Vec<DataId>, x: DataId) -> (r: Vec<DataId>)
    ensures
        r@ == without(ids@, x),
{
    let mut r: Vec<DataId> = Vec::new();
    let mut k: usize = 0;
    while k < ids.len()
        invariant
            k <= ids.len(),
            r@ == without(ids@.take(k as int), x),
        decreases ids.len() - k,
    {
        assert(ids@.take(k + 1).drop_last() == ids@.take(k as int));
        if ids[k] != x {
            r.push(ids[k]);
        }
        k += 1;
    }
    assert(ids@.take(k as int) == ids@);
    r
}

/// Takes `x` out of the data of every document.
fn remove_from_documents(docs: &mut Vec<(DocumentId, Document)>, x: DataId)
    ensures
        documents_model(final(docs)@) == documents_without(documents_model(old(docs)@), x),
{
    let ghost m = documents_model(docs@);
    let mut out: Vec<(DocumentId, Document)> = Vec::new();
    let mut k: usize = 0;
    while k < docs.len()
        invariant
            k <= docs.len(),
            m == documents_model(docs@),
            documents_model(out@) == documents_without(m.take(k as int), x),
        decreases docs.len() - k,
    {
        let ids = ids_without(&docs[k].1.data, x);
        let ghost prev = out@;
        out.push((docs[k].0, Document { data: ids }));
        assert(m[k as int] == (docs@[k as int].0, docs@[k as int].1.data@));
        assert(m.take(k + 1) =~= m.take(k as int).push(m[k as int]));
        assert(documents_model(out@) =~= documents_model(prev).push((docs@[k as int].0, ids@)));
        assert(documents_without(m.take(k + 1), x) =~= documents_without(m.take(k as int), x).push(
            (m[k as int].0, without(m[k as int].1, x)),
        ));
        k += 1;
    }
    assert(m.take(k as int) == m);
    *docs = out;
}

/// Replaces section `s` of the data at position `i` by `bytes`.
fn set_section(data: &mut Vec<(DataId, ErasedData)>, i: usize, s: Section, bytes: Vec<u8>)
    requires
        i < old(data).len(),
    ensures
        data_models(final(data)@) == data_models(old(data)@).update(
            i as int,
            (old(data)@[i as int].0, with_section(data_model(old(data)@[i as int].1), s, bytes@)),
        ),
{
    let ghost m = data_models(data@);
    let (k, mut d) = data.remove(i);
    match s {
        Section::Persistent => {
            d.persistent = bytes;
        },
        Section::PersistentUser => {
            d.persistent_user = bytes;
        },
        Section::Session => {
            d.session = bytes;
        },
        Section::Shared => {
            d.shared = bytes;
        },
    }
    let ghost before = old(data)@;
    data.insert(i, (k, d));
    assert(data@ =~= before.update(i as int, (k, d)));
    assert(data_model(d) =~= with_section(data_model(before[i as int].1), s, bytes@));
    assert(data_models(data@) =~= m.update(i as int, (k, data_model(d))));
}

// ---------------------------------------------------------------------------
// Replaying one change
// ---------------------------------------------------------------------------

/// The model after replaying change `c`, or the unregistered module that
/// stops the replay. `user_ok` says whether the entry's session belongs to
/// the viewing user, whose per-user data then takes the change.
///
/// New data starts at its module's default, and a transaction changes the
/// content of a section through the module's code.
pub open spec fn change_step<M: ModuleCode>(
    reg: Set<ModuleId>,
    code: M,
    m: ViewModel,
    c: Change,
    user_ok: bool,
) -> Result<ViewModel, ModuleId> {
    match c {
        Change::CreateDocument { id, .. } => Ok(
            ViewModel { documents: assoc_set(m.documents, id, Seq::<DataId>::empty()), data: m.data },
        ),
        Change::DeleteDocument(id) => {
            let p = first_pos(m.documents, id);
            if p >= 0 {
                Ok(
                    ViewModel {
                        documents: m.documents.remove(p),
                        data: assoc_remove_all(m.data, m.documents[p].1),
                    },
                )
            } else {
                Ok(m)
            }
        },
        Change::CreateData { id, module, owner } => {
            if !reg.contains(module) {
                Err(module)
            } else {
                let data = assoc_set(m.data, id, fresh_model(code, module));
                match owner {
                    Some(o) => Ok(ViewModel { documents: documents_push(m.documents, o, id), data }),
                    None => Ok(ViewModel { documents: m.documents, data }),
                }
            }
        },
        Change::DeleteData(id) => Ok(ViewModel { documents: m.documents, data: assoc_remove(m.data, id) }),
        Change::MoveData { id, new_owner } => {
            let docs = documents_without(m.documents, id);
            match new_owner {
                Some(o) => if first_pos(docs, o) >= 0 {
                    Ok(ViewModel { documents: documents_push(docs, o, id), data: m.data })
                } else {
                    Ok(ViewModel { documents: docs, data: m.data })
                },
                None => Ok(ViewModel { documents: docs, data: m.data }),
            }
        },
        Change::Transaction { id, args } => {
            if !reg.contains(args.module) {
                Err(args.module)
            } else {
                Ok(
                    ViewModel {
                        documents: m.documents,
                        data: transact_model(code, m.data, id, args, Section::Persistent),
                    },
                )
            }
        },
        Change::UserTransaction { id, args } => {
            if !user_ok {
                Ok(m)
            } else if !reg.contains(args.module) {
                Err(args.module)
            } else {
                Ok(
                    ViewModel {
                        documents: m.documents,
                        data: transact_model(code, m.data, id, args, Section::PersistentUser),
                    },
                )
            }
        },
        Change::RenameDocument { .. } | Change::MoveDocument { .. } | Change::MoveFolder { .. } => Ok(m),
    }
}

/// The bytes of section `s` of `d`.
fn section_bytes(d: &ErasedData, s: Section) -> (r: &Vec<u8>)
    ensures
        r@ == section_of(*d, s),
{
    match s {
        Section::Persistent => &d.persistent,
        Section::PersistentUser => &d.persistent_user,
        Section::Session => &d.session,
        Section::Shared => &d.shared,
    }
}

/// Fresh data of `module`.
fn fresh_data<M: ModuleCode>(code: &M, module: ModuleId) -> (r: ErasedData)
    ensures
        data_model(r) == fresh_model(*code, module),
{
    ErasedData {
        module,
        persistent: code.init_section(module, Section::Persistent),
        persistent_user: code.init_section(module, Section::PersistentUser),
        session: code.init_section(module, Section::Session),
        shared: code.init_section(module, Section::Shared),
    }
}

/// Applies the transaction `args` to section `s` of data `id`.
fn transact<M: ModuleCode>(code: &M, data: &mut Vec<(DataId, ErasedData)>, id: DataId, args: &ErasedArgs, s: Section)
    ensures
        data_models(final(data)@) == transact_model(*code, data_models(old(data)@), id, *args, s),
{
    let ghost m = data_models(data@);
    match data_pos(data, id) {
        Some(i) => {
            proof {
                lemma_first_pos(m, id);
            }
            assert(m[i as int] == (data@[i as int].0, data_model(data@[i as int].1)));
            if data[i].1.module == args.module {
                let res = code.apply_transaction(args.module, s, section_bytes(&data[i].1, s), &args.data);
                assert(model_section(data_model(data@[i as int].1), s) == section_of(data@[i as int].1, s));
                match res {
                    Ok(v) => {
                        set_section(data, i, s, v);
                    },
                    Err(_) => {},
                }
            }
        },
        None => {},
    }
}

/// After `assoc_set`, the first entry of `k` holds `v`.
proof fn lemma_assoc_set_first<K, V>(s: Seq<(K, V)>, k: K, v: V)
    ensures
        first_pos(assoc_set(s, k, v), k) >= 0,
        assoc_set(s, k, v)[first_pos(assoc_set(s, k, v), k)] == (k, v),
{
    lemma_first_pos(s, k);
    let t = assoc_set(s, k, v);
    lemma_first_pos(t, k);
    let p = first_pos(s, k);
    let q = first_pos(t, k);
    if p >= 0 {
        assert(t[p].0 == k);
        if q < p {
            assert(t[q] == s[q]);
        }
        assert(q == p);
    } else {
        assert(t[s.len() as int].0 == k);
        if q < s.len() {
            assert(t[q] == s[q]);
        }
    }
}

/// New data starts at its module's default: replaying the creation of data
/// `id` of a registered module gives, as the data `id`, fresh data of the
/// module, every section at the default that the module's code states.
pub proof fn lemma_created_data_is_fresh<M: ModuleCode>(
    reg: Set<ModuleId>,
    code: M,
    m: ViewModel,
    id: DataId,
    module: ModuleId,
    owner: Option<DocumentId>,
    user_ok: bool,
)
    requires
        reg.contains(module),
    ensures
        change_step(reg, code, m, Change::CreateData { id, module, owner }, user_ok) matches Ok(m2) && first_pos(
            m2.data,
            id,
        ) >= 0 && m2.data[first_pos(m2.data, id)] == (id, fresh_model(code, module)),
{
    lemma_assoc_set_first(m.data, id, fresh_model(code, module));
}

/// Replays change `c` on the documents and data.
fn apply_change<M: ModuleCode>(
    code: &M,
    reg: &ModuleRegistry,
    docs: &mut Vec<(DocumentId, Document)>,
    data: &mut Vec<(DataId, ErasedData)>,
    c: &Change,
    user_ok: bool,
) -> (r: Result<(), ModuleId>)
    ensures
        match change_step(reg@, *code, view_model(old(docs)@, old(data)@), *c, user_ok) {
            Ok(m) => r is Ok && view_model(final(docs)@, final(data)@) == m,
            Err(x) => r == Err::<(), ModuleId>(x),
        },
{
    match c {
        Change::CreateDocument { id, .. } => {
            set_empty_document(docs, *id);
        },
        Change::DeleteDocument(id) => {
            match remove_document(docs, *id) {
                Some(ids) => {
                    remove_data_ids(data, &ids);
                },
                None => {},
            }
        },
        Change::CreateData { id, module, owner } => {
            if !reg.contains(*module) {
                return Err(*module);
            }
            let d = fresh_data(code, *module);
            set_data(data, *id, d);
            match owner {
                Some(o) => {
                    push_to_document(docs, *o, *id);
                },
                None => {},
            }
        },
        Change::DeleteData(id) => {
            remove_data(data, *id);
        },
        Change::MoveData { id, new_owner } => {
            remove_from_documents(docs, *id);
            match new_owner {
                Some(o) => {
                    if document_pos(docs, *o).is_some() {
                        push_to_document(docs, *o, *id);
                    }
                },
                None => {},
            }
        },
        Change::Transaction { id, args } => {
            if !reg.contains(args.module) {
                return Err(args.module);
            }
            transact(code, data, *id, args, Section::Persistent);
        },
        Change::UserTransaction { id, args } => {
            if user_ok {
                if !reg.contains(args.module) {
                    return Err(args.module);
                }
                transact(code, data, *id, args, Section::PersistentUser);
            }
        },
        Change::RenameDocument { .. } | Change::MoveDocument { .. } | Change::MoveFolder { .. } => {},
    }
    Ok(())
}

/// The model after replaying the changes `cs` in order, or the first
/// unregistered module met.
pub open spec fn changes_step<M: ModuleCode>(
    reg: Set<ModuleId>,
    code: M,
    m: ViewModel,
    cs: Seq<Change>,
    user_ok: bool,
) -> Result<ViewModel, ModuleId>
    decreases cs.len(),
{
    if cs.len() == 0 {
        Ok(m)
    } else {
        match changes_step(reg, code, m, cs.drop_last(), user_ok) {
            Ok(m1) => change_step(reg, code, m1, cs.last(), user_ok),
            Err(x) => Err(x),
        }
    }
}

/// Replays the changes `cs` in order.
fn apply_change_list<M: ModuleCode>(
    code: &M,
    reg: &ModuleRegistry,
    docs: &mut Vec<(DocumentId, Document)>,
    data: &mut Vec<(DataId, ErasedData)>,
    cs: &Vec<Change>,
    user_ok: bool,
) -> (r: Result<(), ModuleId>)
    ensures
        match changes_step(reg@, *code, view_model(old(docs)@, old(data)@), cs@, user_ok) {
            Ok(m) => r is Ok && view_model(final(docs)@, final(data)@) == m,
            Err(x) => r == Err::<(), ModuleId>(x),
        },
{
    let ghost m0 = view_model(docs@, data@);
    let mut k: usize = 0;
    while k < cs.len()
        invariant
            k <= cs.len(),
            m0 == view_model(old(docs)@, old(data)@),
            changes_step(reg@, *code, m0, cs@.take(k as int), user_ok) == Ok::<ViewModel, ModuleId>(
                view_model(docs@, data@),
            ),
        decreases cs.len() - k,
    {
        assert(cs@.take(k + 1).drop_last() == cs@.take(k as int));
        assert(cs@.take(k + 1).last() == cs@[k as int]);
        let ghost before = view_model(docs@, data@);
        let res = apply_change(code, reg, docs, data, &cs[k], user_ok);
        if let Err(x) = res {
            assert(change_step(reg@, *code, before, cs@[k as int], user_ok) == Err::<ViewModel, ModuleId>(x));
            assert(changes_step(reg@, *code, m0, cs@.take(k + 1), user_ok) == Err::<ViewModel, ModuleId>(x));
            proof {
                lemma_changes_step_stops(reg@, *code, m0, cs@, user_ok, k + 1);
            }
            return Err(x);
        }
        k += 1;
    }
    assert(cs@.take(k as int) == cs@);
    Ok(())
}

/// Once the replay of a prefix of `cs` stops, the replay of `cs` stops with it.
proof fn lemma_changes_step_stops<M: ModuleCode>(
    reg: Set<ModuleId>,
    code: M,
    m: ViewModel,
    cs: Seq<Change>,
    user_ok: bool,
    k: int,
)
    requires
        0 <= k <= cs.len(),
        changes_step(reg, code, m, cs.take(k), user_ok) is Err,
    ensures
        changes_step(reg, code, m, cs, user_ok) == changes_step(reg, code, m, cs.take(k), user_ok),
    decreases cs.len() - k,
{
    if k < cs.len() {
        assert(cs.take(k + 1).drop_last() == cs.take(k));
        lemma_changes_step_stops(reg, code, m, cs, user_ok, k + 1);
    } else {
        assert(cs.take(k) == cs);
    }
}

// ---------------------------------------------------------------------------
// Which entries of the log a view takes
// ---------------------------------------------------------------------------

/// A view as of time `as_of` takes the entries with a lamport up to `as_of`.
pub open spec fn in_scope(e: LogEntry, as_of: u64) -> bool {
    e.lamport <= as_of
}

/// The payloads of the in-scope entries of session `s` among the first `n`
/// entries of `log`, in order.
pub open spec fn session_payloads(log: Seq<LogEntry>, s: SessionId, as_of: u64, n: int) -> Seq<LogPayload>
    decreases n,
{
    if n <= 0 {
        seq![]
    } else {
        let rest = session_payloads(log, s, as_of, n - 1);
        if log[n - 1].session == s && in_scope(log[n - 1], as_of) {
            rest.push(log[n - 1].payload)
        } else {
            rest
        }
    }
}

/// Entry `i` is in scope, and its effect is active after the undos and
/// redos of its session.
pub open spec fn entry_active(log: Seq<LogEntry>, i: int, as_of: u64) -> bool {
    let s = log[i].session;
    &&& in_scope(log[i], as_of)
    &&& active_positions(session_payloads(log, s, as_of, log.len() as int)).contains(
        session_payloads(log, s, as_of, i).len() as int,
    )
}

/// The `(into, from, lamport)` of the active `MergeBranch` entries among the
/// first `n` entries, in order.
pub open spec fn live_merges(log: Seq<LogEntry>, as_of: u64, n: int) -> Seq<(BranchId, BranchId, u64)>
    decreases n,
{
    if n <= 0 {
        seq![]
    } else {
        let rest = live_merges(log, as_of, n - 1);
        if entry_active(log, n - 1, as_of) {
            match log[n - 1].payload {
                LogPayload::MergeBranch { from, into } => rest.push((into, from, log[n - 1].lamport)),
                _ => rest,
            }
        } else {
            rest
        }
    }
}

/// The branch of session `s`: that of its first in-scope `NewSession` entry
/// among the first `n` entries.
pub open spec fn session_branch(log: Seq<LogEntry>, s: SessionId, as_of: u64, n: int) -> Option<BranchId>
    decreases n,
{
    if n <= 0 {
        None
    } else {
        match session_branch(log, s, as_of, n - 1) {
            Some(b) => Some(b),
            None => if log[n - 1].session == s && in_scope(log[n - 1], as_of) {
                match log[n - 1].payload {
                    LogPayload::NewSession { branch, .. } => Some(branch),
                    _ => None,
                }
            } else {
                None
            },
        }
    }
}

/// The operation of entry `i` is visible from branch `view` as of `as_of`:
/// its session's branch is known and the live merges bring it there.
pub open spec fn entry_visible(log: Seq<LogEntry>, i: int, view: BranchId, as_of: u64) -> bool {
    match session_branch(log, log[i].session, as_of, log.len() as int) {
        Some(b) => op_visible(live_merges(log, as_of, log.len() as int), log[i].lamport, b, view, as_of),
        None => false,
    }
}

/// The entries of `log` at positions `order` are all entries of `log`.
pub open spec fn valid_order(log: Seq<LogEntry>, order: Seq<usize>) -> bool {
    forall|k: int| 0 <= k < order.len() ==> order[k] < log.len()
}

/// Whether entry `i` of the entries of `log` taken in `order` is active.
fn is_active(log: &Vec<LogEntry>, order: &Vec<usize>, i: usize, as_of: u64) -> (r: bool)
    requires
        i < order.len(),
        valid_order(log@, order@),
    ensures
        r == entry_active(permuted(log@, order@), i as int, as_of),
{
    let ghost sl = permuted(log@, order@);
    if log[order[i]].lamport > as_of {
        return false;
    }
    let s = log[order[i]].session;
    let mut refs: Vec<&LogEntry> = Vec::new();
    let mut rank: usize = 0;
    let mut k: usize = 0;
    while k < order.len()
        invariant
            k <= order.len(),
            i < order.len(),
            valid_order(log@, order@),
            sl == permuted(log@, order@),
            s == sl[i as int].session,
            payloads(refs@) == session_payloads(sl, s, as_of, k as int),
            refs.len() <= k,
            k <= i ==> rank == session_payloads(sl, s, as_of, k as int).len(),
            k > i ==> rank == session_payloads(sl, s, as_of, i as int).len(),
        decreases order.len() - k,
    {
        let e = &log[order[k]];
        assert(sl[k as int] == *e);
        if e.session == s && e.lamport <= as_of {
            let ghost prev = refs@;
            refs.push(e);
            assert(payloads(refs@) =~= payloads(prev).push(e.payload));
            if k < i {
                rank += 1;
            }
        }
        k += 1;
    }
    let set = per_session_active_set(refs.as_slice());
    set.contains(&rank)
}

/// The flags of [`is_active`] for every entry.
fn active_flags(log: &Vec<LogEntry>, order: &Vec<usize>, as_of: u64) -> (r: Vec<bool>)
    requires
        valid_order(log@, order@),
    ensures
        r.len() == order.len(),
        forall|i: int| 0 <= i < order.len() ==> r@[i] == entry_active(permuted(log@, order@), i, as_of),
{
    let mut r: Vec<bool> = Vec::new();
    let mut i: usize = 0;
    while i < order.len()
        invariant
            i <= order.len(),
            valid_order(log@, order@),
            r.len() == i,
            forall|j: int| 0 <= j < i ==> r@[j] == entry_active(permuted(log@, order@), j, as_of),
        decreases order.len() - i,
    {
        let a = is_active(log, order, i, as_of);
        r.push(a);
        i += 1;
    }
    r
}

/// The index of the live merges.
fn live_index(log: &Vec<LogEntry>, order: &Vec<usize>, active: &Vec<bool>, as_of: u64) -> (r: MergeIndex)
    requires
        valid_order(log@, order@),
        active.len() == order.len(),
        forall|i: int| 0 <= i < order.len() ==> active@[i] == entry_active(permuted(log@, order@), i, as_of),
    ensures
        r.merges@ == live_merges(permuted(log@, order@), as_of, order.len() as int),
{
    let ghost sl = permuted(log@, order@);
    let mut live: Vec<&LogEntry> = Vec::new();
    let mut k: usize = 0;
    while k < order.len()
        invariant
            k <= order.len(),
            valid_order(log@, order@),
            sl == permuted(log@, order@),
            active.len() == order.len(),
            forall|i: int| 0 <= i < order.len() ==> active@[i] == entry_active(sl, i, as_of),
            merge_triples(live@) == live_merges(sl, as_of, k as int),
        decreases order.len() - k,
    {
        if active[k] {
            let ghost prev = live@;
            assert(sl[k as int] == log@[order@[k as int] as int]);
            live.push(&log[order[k]]);
            assert(live@.drop_last() == prev);
        }
        k += 1;
    }
    live_merges_index(live.as_slice())
}

/// The branch of session `s`.
fn branch_of_session(log: &Vec<LogEntry>, order: &Vec<usize>, s: SessionId, as_of: u64) -> (r: Option<BranchId>)
    requires
        valid_order(log@, order@),
    ensures
        r == session_branch(permuted(log@, order@), s, as_of, order.len() as int),
{
    let ghost sl = permuted(log@, order@);
    let mut k: usize = 0;
    while k < order.len()
        invariant
            k <= order.len(),
            valid_order(log@, order@),
            sl == permuted(log@, order@),
            session_branch(sl, s, as_of, k as int) is None,
        decreases order.len() - k,
    {
        let e = &log[order[k]];
        assert(sl[k as int] == *e);
        if e.session == s && e.lamport <= as_of {
            if let LogPayload::NewSession { branch, .. } = e.payload {
                proof {
                    lemma_session_branch_stays(sl, s, as_of, k + 1);
                }
                return Some(branch);
            }
        }
        k += 1;
    }
    None
}

/// Once the branch of a session is found, later entries do not change it.
proof fn lemma_session_branch_stays(log: Seq<LogEntry>, s: SessionId, as_of: u64, n: int)
    requires
        0 <= n <= log.len(),
    ensures
        session_branch(log, s, as_of, n) is Some ==> session_branch(log, s, as_of, log.len() as int)
            == session_branch(log, s, as_of, n),
    decreases log.len() - n,
{
    if n < log.len() {
        lemma_session_branch_stays(log, s, as_of, n + 1);
    }
}

// ---------------------------------------------------------------------------
// Replaying the log
// ---------------------------------------------------------------------------

/// Errors of [`Project::create_view_at`].
#[derive(Debug, Clone, Copy, PartialEq, Eq)]
pub enum ProjectViewError {
    /// The log uses a module that the registry does not know.
    UnknownModule(ModuleId),
}

/// The user of session `s`, if a `NewSession` entry declared it.
pub open spec fn user_of(sessions: Seq<(SessionId, UserId)>, s: SessionId) -> Option<UserId> {
    let p = first_pos(sessions, s);
    if p >= 0 {
        Some(sessions[p].1)
    } else {
        None
    }
}

/// The model and the known sessions after replaying the first `n` entries
/// of `log` for `user` viewing `view` as of `as_of`, or the first
/// unregistered module met.
///
/// A `NewSession` entry declares its session's user; a `Changes` entry is
/// replayed when it is active and visible from `view`; every other entry
/// changes nothing here.
pub open spec fn replay_log<M: ModuleCode>(
    reg: Set<ModuleId>,
    code: M,
    log: Seq<LogEntry>,
    view: BranchId,
    as_of: u64,
    user: UserId,
    n: int,
) -> Result<(ViewModel, Seq<(SessionId, UserId)>), ModuleId>
    decreases n,
{
    if n <= 0 {
        Ok((ViewModel { documents: seq![], data: seq![] }, seq![]))
    } else {
        match replay_log(reg, code, log, view, as_of, user, n - 1) {
            Err(x) => Err(x),
            Ok((m, sessions)) => {
                let e = log[n - 1];
                if !in_scope(e, as_of) {
                    Ok((m, sessions))
                } else {
                    match e.payload {
                        LogPayload::NewSession { user: u, .. } => Ok((m, assoc_set(sessions, e.session, u))),
                        LogPayload::Changes(cs) => if entry_active(log, n - 1, as_of) && entry_visible(
                            log,
                            n - 1,
                            view,
                            as_of,
                        ) {
                            match changes_step(reg, code, m, cs@, user_of(sessions, e.session) == Some(user)) {
                                Ok(m2) => Ok((m2, sessions)),
                                Err(x) => Err(x),
                            }
                        } else {
                            Ok((m, sessions))
                        },
                        _ => Ok((m, sessions)),
                    }
                }
            },
        }
    }
}

/// Laying the sections `stored` over section `s` of `data`, in order: a
/// stored section replaces section `s` of the first data with its id when
/// the modules agree. A module that the registry lacks stops it.
pub open spec fn overlay(
    reg: Set<ModuleId>,
    data: Seq<(DataId, DataModel)>,
    stored: Seq<(DataId, ErasedSection)>,
    s: Section,
) -> Result<Seq<(DataId, DataModel)>, ModuleId>
    decreases stored.len(),
{
    if stored.len() == 0 {
        Ok(data)
    } else {
        match overlay(reg, data, stored.drop_last(), s) {
            Err(x) => Err(x),
            Ok(d) => {
                let (id, sec) = stored.last();
                let p = first_pos(d, id);
                if p >= 0 && d[p].1.module == sec.module {
                    if !reg.contains(sec.module) {
                        Err(sec.module)
                    } else {
                        Ok(d.update(p, (id, with_section(d[p].1, s, sec.data@))))
                    }
                } else {
                    Ok(d)
                }
            },
        }
    }
}

/// The model `m` with the replica `p`'s session and then shared sections
/// laid over its data.
pub open spec fn with_kept_sections(reg: Set<ModuleId>, m: ViewModel, p: Project) -> Result<ViewModel, ModuleId> {
    match overlay(reg, m.data, p.session_data@, Section::Session) {
        Err(x) => Err(x),
        Ok(d1) => match overlay(reg, d1, p.shared_data@, Section::Shared) {
            Err(x) => Err(x),
            Ok(d2) => Ok(ViewModel { documents: m.documents, data: d2 }),
        },
    }
}

/// What a view of `p` from branch `view` as of `as_of` holds: the log
/// replayed in `(lamport, session)` order, with the replica's session and
/// then shared sections laid over it.
pub open spec fn view_result<M: ModuleCode>(
    reg: Set<ModuleId>,
    code: M,
    p: Project,
    view: BranchId,
    as_of: u64,
) -> Result<ViewModel, ModuleId> {
    let log = key_sorted(p.log@);
    match replay_log(reg, code, log, view, as_of, p.user, log.len() as int) {
        Err(x) => Err(x),
        Ok((m, _)) => with_kept_sections(reg, m, p),
    }
}

/// The user of session `s`.
fn session_user(sessions: &Vec<(SessionId, UserId)>, s: SessionId) -> (r: Option<UserId>)
    ensures
        r == user_of(sessions@, s),
{
    proof {
        lemma_first_pos(sessions@, s);
    }
    let mut k: usize = 0;
    while k < sessions.len()
        invariant
            k <= sessions.len(),
            forall|j: int| 0 <= j < k ==> (#[trigger] sessions@[j]).0 != s,
        decreases sessions.len() - k,
    {
        if sessions[k].0 == s {
            proof {
                lemma_first_pos(sessions@, s);
            }
            return Some(sessions[k].1);
        }
        k += 1;
    }
    None
}

/// Declares the user of session `s`.
fn set_session_user(sessions: &mut Vec<(SessionId, UserId)>, s: SessionId, u: UserId)
    ensures
        final(sessions)@ == assoc_set(old(sessions)@, s, u),
{
    proof {
        lemma_first_pos(sessions@, s);
    }
    let mut k: usize = 0;
    while k < sessions.len()
        invariant
            k <= sessions.len(),
            sessions@ == old(sessions)@,
            forall|j: int| 0 <= j < k ==> (#[trigger] sessions@[j]).0 != s,
        decreases sessions.len() - k,
    {
        if sessions[k].0 == s {
            proof {
                lemma_first_pos(sessions@, s);
            }
            sessions.set(k, (s, u));
            return;
        }
        k += 1;
    }
    proof {
        lemma_first_pos(sessions@, s);
    }
    sessions.push((s, u));
}

/// Lays the sections `stored` over section `s` of `data`.
fn apply_overlay(
    reg: &ModuleRegistry,
    data: &mut Vec<(DataId, ErasedData)>,
    stored: &Vec<(DataId, ErasedSection)>,
    s: Section,
) -> (r: Result<(), ModuleId>)
    ensures
        match overlay(reg@, data_models(old(data)@), stored@, s) {
            Ok(d) => r is Ok && data_models(final(data)@) == d,
            Err(x) => r == Err::<(), ModuleId>(x),
        },
{
    let ghost d0 = data_models(data@);
    let mut k: usize = 0;
    while k < stored.len()
        invariant
            k <= stored.len(),
            d0 == data_models(old(data)@),
            overlay(reg@, d0, stored@.take(k as int), s) == Ok::<Seq<(DataId, DataModel)>, ModuleId>(
                data_models(data@),
            ),
        decreases stored.len() - k,
    {
        assert(stored@.take(k + 1).drop_last() == stored@.take(k as int));
        assert(stored@.take(k + 1).last() == stored@[k as int]);
        let ghost before = data_models(data@);
        let id = stored[k].0;
        match data_pos(data, id) {
            Some(i) => {
                proof {
                    lemma_first_pos(before, id);
                }
                assert(before[i as int] == (data@[i as int].0, data_model(data@[i as int].1)));
                if data[i].1.module == stored[k].1.module {
                    if !reg.contains(stored[k].1.module) {
                        proof {
                            lemma_overlay_stops(reg@, d0, stored@, s, k + 1);
                        }
                        return Err(stored[k].1.module);
                    }
                    let bytes = copy_bytes(&stored[k].1.data);
                    set_section(data, i, s, bytes);
                }
            },
            None => {},
        }
        k += 1;
    }
    assert(stored@.take(k as int) == stored@);
    Ok(())
}

/// Once laying a prefix of `stored` stops, laying all of `stored` stops with it.
proof fn lemma_overlay_stops(
    reg: Set<ModuleId>,
    data: Seq<(DataId, DataModel)>,
    stored: Seq<(DataId, ErasedSection)>,
    s: Section,
    k: int,
)
    requires
        0 <= k <= stored.len(),
        overlay(reg, data, stored.take(k), s) is Err,
    ensures
        overlay(reg, data, stored, s) == overlay(reg, data, stored.take(k), s),
    decreases stored.len() - k,
{
    if k < stored.len() {
        assert(stored.take(k + 1).drop_last() == stored.take(k));
        lemma_overlay_stops(reg, data, stored, s, k + 1);
    } else {
        assert(stored.take(k) == stored);
    }
}

/// A copy of `v`.
fn copy_bytes(v: &Vec<u8>) -> (r: Vec<u8>)
    ensures
        r@ == v@,
{
    let mut r: Vec<u8> = Vec::new();
    let mut k: usize = 0;
    while k < v.len()
        invariant
            k <= v.len(),
            r@ == v@.take(k as int),
        decreases v.len() - k,
    {
        r.push(v[k]);
        assert(v@.take(k + 1) == v@.take(k as int).push(v@[k as int]));
        k += 1;
    }
    assert(v@.take(k as int) == v@);
    r
}

/// Once the replay of the first `k` entries stops, the replay of more entries stops with it.
proof fn lemma_replay_stops<M: ModuleCode>(
    reg: Set<ModuleId>,
    code: M,
    log: Seq<LogEntry>,
    view: BranchId,
    as_of: u64,
    user: UserId,
    k: int,
    n: int,
)
    requires
        0 <= k <= n,
        replay_log(reg, code, log, view, as_of, user, k) is Err,
    ensures
        replay_log(reg, code, log, view, as_of, user, n) == replay_log(reg, code, log, view, as_of, user, k),
    decreases n - k,
{
    if k < n {
        lemma_replay_stops(reg, code, log, view, as_of, user, k + 1, n);
    }
}

impl Project {
    /// Rebuilds the project as seen from branch `branch` at time `as_of`.
    ///
    /// Replays, in `(lamport, session)` order, the entries with a lamport up
    /// to `as_of`:
    /// `NewSession` entries declare the user of their session, and each
    /// `Changes` entry that is still active after its session's undos and
    /// redos, and whose session's branch reaches `branch` through the live
    /// merges, has its changes applied. Then this replica's session and
    /// shared sections are laid over the data. Fails with the first module
    /// met that the registry does not know.
    pub fn create_view_at<M: ModuleCode>(
        &self,
        reg: &ModuleRegistry,
        code: &M,
        branch: BranchId,
        as_of: u64,
    ) -> (r: Result<ProjectView, ProjectViewError>)
        ensures
            match view_result(reg@, *code, *self, branch, as_of) {
                Ok(m) => match r {
                    Ok(v) => {
                        &&& view_model(v.documents@, v.data@) == m
                        &&& v.uuid == self.uuid
                        &&& v.user.0 == 0
                    },
                    Err(_) => false,
                },
                Err(x) => r == Err::<ProjectView, ProjectViewError>(ProjectViewError::UnknownModule(x)),
            },
    {
        let order = key_order(&self.log);
        let ghost log = key_sorted(self.log@);
        assert(permuted(self.log@, order@) == log);
        let active = active_flags(&self.log, &order, as_of);
        let index = live_index(&self.log, &order, &active, as_of);
        let mut docs: Vec<(DocumentId, Document)> = Vec::new();
        let mut data: Vec<(DataId, ErasedData)> = Vec::new();
        let mut sessions: Vec<(SessionId, UserId)> = Vec::new();
        assert(documents_model(docs@) =~= seq![]);
        assert(data_models(data@) =~= seq![]);
        let mut i: usize = 0;
        while i < order.len()
            invariant
                i <= order.len(),
                valid_order(self.log@, order@),
                log == permuted(self.log@, order@),
                log == key_sorted(self.log@),
                log.len() == order.len(),
                active.len() == order.len(),
                forall|j: int| 0 <= j < order.len() ==> active@[j] == entry_active(log, j, as_of),
                index.merges@ == live_merges(log, as_of, log.len() as int),
                replay_log(reg@, *code, log, branch, as_of, self.user, i as int) == Ok::<
                    (ViewModel, Seq<(SessionId, UserId)>),
                    ModuleId,
                >((view_model(docs@, data@), sessions@)),
            decreases order.len() - i,
        {
            let e = &self.log[order[i]];
            assert(log[i as int] == *e);
            if e.lamport <= as_of {
                match &e.payload {
                    LogPayload::NewSession { user, .. } => {
                        set_session_user(&mut sessions, e.session, *user);
                    },
                    LogPayload::Changes(cs) => {
                        if active[i] {
                            match branch_of_session(&self.log, &order, e.session, as_of) {
                                Some(b) => {
                                    if op_is_visible(e.lamport, b, branch, as_of, &index) {
                                        let user_ok = match session_user(&sessions, e.session) {
                                            Some(u) => u == self.user,
                                            None => false,
                                        };
                                        if let Err(x) = apply_change_list(code, reg, &mut docs, &mut data, cs, user_ok) {
                                            proof {
                                                lemma_replay_stops(
                                                    reg@,
                                                    *code,
                                                    log,
                                                    branch,
                                                    as_of,
                                                    self.user,
                                                    i + 1,
                                                    log.len() as int,
                                                );
                                            }
                                            return Err(ProjectViewError::UnknownModule(x));
                                        }
                                    }
                                },
                                None => {},
                            }
                        }
                    },
                    _ => {},
                }
            }
            i += 1;
        }
        if let Err(x) = apply_overlay(reg, &mut data, &self.session_data, Section::Session) {
            return Err(ProjectViewError::UnknownModule(x));
        }
        if let Err(x) = apply_overlay(reg, &mut data, &self.shared_data, Section::Shared) {
            return Err(ProjectViewError::UnknownModule(x));
        }
        Ok(ProjectView { uuid: self.uuid, user: UserId::local(), data, documents: docs })
    }

    /// Rebuilds the project as seen from its current branch, with every entry.
    pub fn create_view<M: ModuleCode>(&self, reg: &ModuleRegistry, code: &M) -> (r: Result<
        ProjectView,
        ProjectViewError,
    >)
        ensures
            match view_result(reg@, *code, *self, self.branch, u64::MAX) {
                Ok(m) => match r {
                    Ok(v) => {
                        &&& view_model(v.documents@, v.data@) == m
                        &&& v.uuid == self.uuid
                        &&& v.user.0 == 0
                    },
                    Err(_) => false,
                },
                Err(x) => r == Err::<ProjectView, ProjectViewError>(ProjectViewError::UnknownModule(x)),
            },
    {
        self.create_view_at(reg, code, self.branch, u64::MAX)
    }
}

// ---------------------------------------------------------------------------
// The order of replay
// ---------------------------------------------------------------------------

/// Entry `a` comes strictly before entry `b` in `(lamport, session)` order.
pub open spec fn key_before(a: LogEntry, b: LogEntry) -> bool {
    a.lamport < b.lamport || (a.lamport == b.lamport && a.session.0 < b.session.0)
}

/// Position of the first entry of `s` that comes strictly after `e`, or `s.len()`.
pub open spec fn insert_pos(s: Seq<LogEntry>, e: LogEntry) -> int
    decreases s.len(),
{
    if s.len() == 0 {
        0
    } else {
        let r = insert_pos(s.drop_last(), e);
        if r < s.len() - 1 {
            r
        } else if key_before(e, s.last()) {
            s.len() - 1
        } else {
            s.len() as int
        }
    }
}

/// The entries of `log` in `(lamport, session)` order; entries with equal
/// keys keep their log order.
pub open spec fn key_sorted(log: Seq<LogEntry>) -> Seq<LogEntry>
    decreases log.len(),
{
    if log.len() == 0 {
        seq![]
    } else {
        let s = key_sorted(log.drop_last());
        s.insert(insert_pos(s, log.last()), log.last())
    }
}

/// `insert_pos` is the first position holding an entry after `e`.
pub proof fn lemma_insert_pos(s: Seq<LogEntry>, e: LogEntry)
    ensures
        0 <= insert_pos(s, e) <= s.len(),
        insert_pos(s, e) < s.len() ==> key_before(e, s[insert_pos(s, e)]),
        forall|j: int| 0 <= j < insert_pos(s, e) ==> !key_before(e, #[trigger] s[j]),
    decreases s.len(),
{
    if s.len() > 0 {
        lemma_insert_pos(s.drop_last(), e);
        assert forall|j: int| 0 <= j < insert_pos(s, e) implies !key_before(e, #[trigger] s[j]) by {
            if j < s.len() - 1 {
                assert(s.drop_last()[j] == s[j]);
            }
        }
    }
}

/// The entries of `log` at the positions `order`.
pub open spec fn permuted(log: Seq<LogEntry>, order: Seq<usize>) -> Seq<LogEntry> {
    order.map_values(|k: usize| log[k as int])
}

/// The positions of `log` in `(lamport, session)` order.
fn key_order(log: &Vec<LogEntry>) -> (order: Vec<usize>)
    ensures
        order.len() == log.len(),
        forall|k: int| 0 <= k < order.len() ==> order@[k] < log.len(),
        permuted(log@, order@) == key_sorted(log@),
{
    let mut order: Vec<usize> = Vec::new();
    let mut i: usize = 0;
    while i < log.len()
        invariant
            i <= log.len(),
            order.len() == i,
            forall|k: int| 0 <= k < order.len() ==> order@[k] < log.len(),
            permuted(log@, order@) == key_sorted(log@.take(i as int)),
        decreases log.len() - i,
    {
        let ghost sorted = permuted(log@, order@);
        let e = &log[i];
        proof {
            lemma_insert_pos(sorted, *e);
        }
        let mut p: usize = 0;
        while p < order.len()
            invariant
                p <= order.len(),
                i < log.len(),
                *e == log@[i as int],
                order.len() == i,
                forall|k: int| 0 <= k < order.len() ==> order@[k] < log.len(),
                sorted == permuted(log@, order@),
                p <= insert_pos(sorted, *e),
                0 <= insert_pos(sorted, *e) <= sorted.len(),
                insert_pos(sorted, *e) < sorted.len() ==> key_before(*e, sorted[insert_pos(sorted, *e)]),
                forall|j: int| 0 <= j < insert_pos(sorted, *e) ==> !key_before(*e, #[trigger] sorted[j]),
            ensures
                p <= insert_pos(sorted, *e),
                p == order.len() || key_before(*e, sorted[p as int]),
            decreases order.len() - p,
        {
            let o = &log[order[p]];
            assert(sorted[p as int] == *o);
            if e.lamport < o.lamport || (e.lamport == o.lamport && e.session.0 < o.session.0) {
                break;
            }
            p += 1;
        }
        assert(p == insert_pos(sorted, *e));
        order.insert(p, i);
        assert(log@.take(i + 1).drop_last() == log@.take(i as int));
        assert(log@.take(i + 1).last() == log@[i as int]);
        assert(permuted(log@, order@) =~= sorted.insert(p as int, log@[i as int]));
        i += 1;
    }
    assert(log@.take(i as int) == log@);
    order
}

/// `key_sorted` holds every entry of the log as often as the log does, in
/// `(lamport, session)` order.
pub proof fn lemma_key_sorted(log: Seq<LogEntry>)
    ensures
        key_sorted(log).to_multiset() == log.to_multiset(),
        forall|i: int, j: int|
            0 <= i < j < key_sorted(log).len() ==> !key_before(
                #[trigger] key_sorted(log)[j],
                #[trigger] key_sorted(log)[i],
            ),
    decreases log.len(),
{
    if log.len() == 0 {
        assert(key_sorted(log) =~= log);
    } else {
        let init = log.drop_last();
        let e = log.last();
        lemma_key_sorted(init);
        let s = key_sorted(init);
        let p = insert_pos(s, e);
        lemma_insert_pos(s, e);
        let t = key_sorted(log);
        assert(t == s.insert(p, e));
        vstd::seq_lib::to_multiset_insert(s, p, e);
        assert(log == init.push(e));
        vstd::seq_lib::to_multiset_build(init, e);
        assert forall|i: int, j: int| 0 <= i < j < t.len() implies !key_before(#[trigger] t[j], #[trigger] t[i]) by {
            if j < p {
                assert(t[i] == s[i] && t[j] == s[j]);
            } else if j == p {
                assert(t[i] == s[i]);
            } else if i > p {
                assert(t[i] == s[i - 1] && t[j] == s[j - 1]);
            } else if i == p {
                assert(t[j] == s[j - 1]);
                assert(!key_before(s[j - 1], s[p]));
            } else {
                assert(t[i] == s[i] && t[j] == s[j - 1]);
            }
        }
    }
}

// ---------------------------------------------------------------------------
// Every id once
// ---------------------------------------------------------------------------

/// No key appears twice in `s`.
pub open spec fn distinct_keys<K, V>(s: Seq<(K, V)>) -> bool {
    forall|i: int, j: int| 0 <= i < j < s.len() ==> (#[trigger] s[i]).0 != (#[trigger] s[j]).0
}

proof fn lemma_assoc_set_distinct<K, V>(s: Seq<(K, V)>, k: K, v: V)
    requires
        distinct_keys(s),
    ensures
        distinct_keys(assoc_set(s, k, v)),
{
    lemma_first_pos(s, k);
    let t = assoc_set(s, k, v);
    let p = first_pos(s, k);
    assert forall|i: int, j: int| 0 <= i < j < t.len() implies (#[trigger] t[i]).0 != (#[trigger] t[j]).0 by {
        if p < 0 && j == s.len() {
            assert(t[i] == s[i]);
        } else if p >= 0 && (i == p || j == p) {
            assert(t[i].0 == s[i].0 && t[j].0 == s[j].0);
        } else {
            assert(t[i] == s[i] && t[j] == s[j]);
        }
    }
}

proof fn lemma_assoc_remove_distinct<K, V>(s: Seq<(K, V)>, k: K)
    requires
        distinct_keys(s),
    ensures
        distinct_keys(assoc_remove(s, k)),
{
    lemma_first_pos(s, k);
    let t = assoc_remove(s, k);
    let p = first_pos(s, k);
    if p >= 0 {
        assert forall|i: int, j: int| 0 <= i < j < t.len() implies (#[trigger] t[i]).0 != (#[trigger] t[j]).0 by {
            let a = if i < p { i } else { i + 1 };
            let b = if j < p { j } else { j + 1 };
            assert(t[i] == s[a] && t[j] == s[b]);
        }
    }
}

proof fn lemma_assoc_remove_all_distinct<K, V>(s: Seq<(K, V)>, ks: Seq<K>)
    requires
        distinct_keys(s),
    ensures
        distinct_keys(assoc_remove_all(s, ks)),
    decreases ks.len(),
{
    if ks.len() > 0 {
        lemma_assoc_remove_all_distinct(s, ks.drop_last());
        lemma_assoc_remove_distinct(assoc_remove_all(s, ks.drop_last()), ks.last());
    }
}

proof fn lemma_documents_push_distinct(docs: Seq<(DocumentId, Seq<DataId>)>, owner: DocumentId, id: DataId)
    requires
        distinct_keys(docs),
    ensures
        distinct_keys(documents_push(docs, owner, id)),
{
    lemma_first_pos(docs, owner);
    let t = documents_push(docs, owner, id);
    let p = first_pos(docs, owner);
    assert forall|i: int, j: int| 0 <= i < j < t.len() implies (#[trigger] t[i]).0 != (#[trigger] t[j]).0 by {
        if p < 0 && j == docs.len() {
            assert(t[i] == docs[i]);
        } else {
            assert(t[i].0 == docs[i].0 && t[j].0 == docs[j].0);
        }
    }
}

proof fn lemma_documents_without_distinct(docs: Seq<(DocumentId, Seq<DataId>)>, x: DataId)
    requires
        distinct_keys(docs),
    ensures
        distinct_keys(documents_without(docs, x)),
{
    let t = documents_without(docs, x);
    assert forall|i: int, j: int| 0 <= i < j < t.len() implies (#[trigger] t[i]).0 != (#[trigger] t[j]).0 by {
        assert(t[i].0 == docs[i].0 && t[j].0 == docs[j].0);
    }
}

/// The model has each document and each data once.
pub open spec fn model_distinct(m: ViewModel) -> bool {
    distinct_keys(m.documents) && distinct_keys(m.data)
}

/// Replacing the value of an entry keeps the keys distinct.
proof fn lemma_update_value_distinct<K, V>(s: Seq<(K, V)>, p: int, v: V)
    requires
        distinct_keys(s),
        0 <= p < s.len(),
    ensures
        distinct_keys(s.update(p, (s[p].0, v))),
{
    let t = s.update(p, (s[p].0, v));
    assert forall|i: int, j: int| 0 <= i < j < t.len() implies (#[trigger] t[i]).0 != (#[trigger] t[j]).0 by {
        assert(t[i].0 == s[i].0 && t[j].0 == s[j].0);
    }
}

proof fn lemma_transact_distinct<M: ModuleCode>(
    code: M,
    data: Seq<(DataId, DataModel)>,
    id: DataId,
    args: ErasedArgs,
    s: Section,
)
    requires
        distinct_keys(data),
    ensures
        distinct_keys(transact_model(code, data, id, args, s)),
{
    lemma_first_pos(data, id);
    let p = first_pos(data, id);
    if p >= 0 && data[p].1.module == args.module {
        if let Ok(v) = code.apply_spec(args.module, s, model_section(data[p].1, s), args.data@) {
            lemma_update_value_distinct(data, p, with_section(data[p].1, s, v));
        }
    }
}

proof fn lemma_change_step_distinct<M: ModuleCode>(reg: Set<ModuleId>, code: M, m: ViewModel, c: Change, user_ok: bool)
    requires
        model_distinct(m),
    ensures
        change_step(reg, code, m, c, user_ok) matches Ok(m2) ==> model_distinct(m2),
{
    match c {
        Change::CreateDocument { id, .. } => {
            lemma_assoc_set_distinct(m.documents, id, Seq::<DataId>::empty());
        },
        Change::DeleteDocument(id) => {
            lemma_first_pos(m.documents, id);
            let p = first_pos(m.documents, id);
            if p >= 0 {
                assert(m.documents.remove(p) == assoc_remove(m.documents, id));
                lemma_assoc_remove_distinct(m.documents, id);
                lemma_assoc_remove_all_distinct(m.data, m.documents[p].1);
            }
        },
        Change::CreateData { id, module, owner } => {
            lemma_assoc_set_distinct(m.data, id, fresh_model(code, module));
            if let Some(o) = owner {
                lemma_documents_push_distinct(m.documents, o, id);
            }
        },
        Change::DeleteData(id) => {
            lemma_assoc_remove_distinct(m.data, id);
        },
        Change::MoveData { id, new_owner } => {
            lemma_documents_without_distinct(m.documents, id);
            if let Some(o) = new_owner {
                lemma_documents_push_distinct(documents_without(m.documents, id), o, id);
            }
        },
        Change::Transaction { id, args } => {
            lemma_transact_distinct(code, m.data, id, args, Section::Persistent);
        },
        Change::UserTransaction { id, args } => {
            lemma_transact_distinct(code, m.data, id, args, Section::PersistentUser);
        },
        _ => {},
    }
}

proof fn lemma_changes_step_distinct<M: ModuleCode>(
    reg: Set<ModuleId>,
    code: M,
    m: ViewModel,
    cs: Seq<Change>,
    user_ok: bool,
)
    requires
        model_distinct(m),
    ensures
        changes_step(reg, code, m, cs, user_ok) matches Ok(m2) ==> model_distinct(m2),
    decreases cs.len(),
{
    if cs.len() > 0 {
        lemma_changes_step_distinct(reg, code, m, cs.drop_last(), user_ok);
        if let Ok(m1) = changes_step(reg, code, m, cs.drop_last(), user_ok) {
            lemma_change_step_distinct(reg, code, m1, cs.last(), user_ok);
        }
    }
}

proof fn lemma_replay_distinct<M: ModuleCode>(
    reg: Set<ModuleId>,
    code: M,
    log: Seq<LogEntry>,
    view: BranchId,
    as_of: u64,
    user: UserId,
    n: int,
)
    ensures
        replay_log(reg, code, log, view, as_of, user, n) matches Ok((m, _)) ==> model_distinct(m),
    decreases n,
{
    if n <= 0 {
        assert(distinct_keys(Seq::<(DocumentId, Seq<DataId>)>::empty()));
        assert(distinct_keys(Seq::<(DataId, DataModel)>::empty()));
    } else {
        lemma_replay_distinct(reg, code, log, view, as_of, user, n - 1);
        if let Ok((m, sessions)) = replay_log(reg, code, log, view, as_of, user, n - 1) {
            if let LogPayload::Changes(cs) = log[n - 1].payload {
                lemma_changes_step_distinct(reg, code, m, cs@, user_of(sessions, log[n - 1].session) == Some(user));
            }
        }
    }
}

/// Laying sections over the data keeps its ids distinct.
proof fn lemma_overlay_distinct(
    reg: Set<ModuleId>,
    data: Seq<(DataId, DataModel)>,
    stored: Seq<(DataId, ErasedSection)>,
    s: Section,
)
    requires
        distinct_keys(data),
    ensures
        overlay(reg, data, stored, s) matches Ok(d) ==> distinct_keys(d),
    decreases stored.len(),
{
    if stored.len() > 0 {
        lemma_overlay_distinct(reg, data, stored.drop_last(), s);
        if let Ok(d) = overlay(reg, data, stored.drop_last(), s) {
            let (id, sec) = stored.last();
            lemma_first_pos(d, id);
            let p = first_pos(d, id);
            if p >= 0 && d[p].1.module == sec.module && reg.contains(sec.module) {
                lemma_update_value_distinct(d, p, with_section(d[p].1, s, sec.data@));
            }
        }
    }
}

/// A view holds each document and each data once: the documents and the
/// data of a view that [`Project::create_view_at`] builds have distinct ids.
pub proof fn lemma_view_ids_distinct<M: ModuleCode>(reg: Set<ModuleId>, code: M, p: Project, view: BranchId, as_of: u64)
    ensures
        view_result(reg, code, p, view, as_of) matches Ok(m) ==> model_distinct(m),
{
    let log = key_sorted(p.log@);
    lemma_replay_distinct(reg, code, log, view, as_of, p.user, log.len() as int);
    if let Ok((m, _)) = replay_log(reg, code, log, view, as_of, p.user, log.len() as int) {
        lemma_overlay_distinct(reg, m.data, p.session_data@, Section::Session);
        if let Ok(d1) = overlay(reg, m.data, p.session_data@, Section::Session) {
            lemma_overlay_distinct(reg, d1, p.shared_data@, Section::Shared);
        }
    }
}

// ---------------------------------------------------------------------------
// The persistent part of a view
// ---------------------------------------------------------------------------

/// The data of a model with their module and persistent section only.
pub open spec fn persistent_data(d: Seq<(DataId, DataModel)>) -> Seq<(DataId, (ModuleId, Seq<u8>))> {
    d.map_values(|p: (DataId, DataModel)| (p.0, (p.1.module, p.1.persistent)))
}

/// What a model holds whoever views it, with whatever kept sections: the
/// documents with their data, and the data with their module and
/// persistent section.
pub open spec fn persistent_part(m: ViewModel) -> (Seq<(DocumentId, Seq<DataId>)>, Seq<(DataId, (ModuleId, Seq<u8>))>) {
    (m.documents, persistent_data(m.data))
}

pub proof fn lemma_persistent_first_pos(d: Seq<(DataId, DataModel)>, k: DataId)
    ensures
        first_pos(persistent_data(d), k) == first_pos(d, k),
    decreases d.len(),
{
    if d.len() > 0 {
        assert(persistent_data(d).drop_last() =~= persistent_data(d.drop_last()));
        lemma_persistent_first_pos(d.drop_last(), k);
    }
}

proof fn lemma_persistent_assoc_remove(d: Seq<(DataId, DataModel)>, k: DataId)
    ensures
        persistent_data(assoc_remove(d, k)) == assoc_remove(persistent_data(d), k),
{
    lemma_persistent_first_pos(d, k);
    let p = first_pos(d, k);
    if p >= 0 {
        lemma_first_pos(d, k);
        assert(persistent_data(d.remove(p)) =~= persistent_data(d).remove(p));
    }
}

proof fn lemma_persistent_assoc_remove_all(d: Seq<(DataId, DataModel)>, ks: Seq<DataId>)
    ensures
        persistent_data(assoc_remove_all(d, ks)) == assoc_remove_all(persistent_data(d), ks),
    decreases ks.len(),
{
    if ks.len() > 0 {
        lemma_persistent_assoc_remove_all(d, ks.drop_last());
        lemma_persistent_assoc_remove(assoc_remove_all(d, ks.drop_last()), ks.last());
    }
}

proof fn lemma_persistent_assoc_set(d: Seq<(DataId, DataModel)>, k: DataId, v: DataModel)
    ensures
        persistent_data(assoc_set(d, k, v)) == assoc_set(persistent_data(d), k, (v.module, v.persistent)),
{
    lemma_persistent_first_pos(d, k);
    let p = first_pos(d, k);
    lemma_first_pos(d, k);
    if p >= 0 {
        assert(persistent_data(d.update(p, (k, v))) =~= persistent_data(d).update(p, (k, (v.module, v.persistent))));
    } else {
        assert(persistent_data(d.push((k, v))) =~= persistent_data(d).push((k, (v.module, v.persistent))));
    }
}

/// The persistent part after a transaction on section `s` of data `id`,
/// from the persistent part before it.
pub open spec fn transact_persistent<M: ModuleCode>(
    code: M,
    pd: Seq<(DataId, (ModuleId, Seq<u8>))>,
    id: DataId,
    args: ErasedArgs,
    s: Section,
) -> Seq<(DataId, (ModuleId, Seq<u8>))> {
    let p = first_pos(pd, id);
    if s == Section::Persistent && p >= 0 && pd[p].1.0 == args.module {
        match code.apply_spec(args.module, s, pd[p].1.1, args.data@) {
            Ok(v) => pd.update(p, (id, (pd[p].1.0, v))),
            Err(_) => pd,
        }
    } else {
        pd
    }
}

proof fn lemma_persistent_transact<M: ModuleCode>(
    code: M,
    d: Seq<(DataId, DataModel)>,
    id: DataId,
    args: ErasedArgs,
    s: Section,
)
    requires
        s == Section::Persistent || s == Section::PersistentUser,
    ensures
        persistent_data(transact_model(code, d, id, args, s)) == transact_persistent(
            code,
            persistent_data(d),
            id,
            args,
            s,
        ),
{
    lemma_persistent_first_pos(d, id);
    lemma_first_pos(d, id);
    let p = first_pos(d, id);
    if p >= 0 && d[p].1.module == args.module {
        if let Ok(v) = code.apply_spec(args.module, s, model_section(d[p].1, s), args.data@) {
            let w = with_section(d[p].1, s, v);
            if s == Section::Persistent {
                assert(persistent_data(d.update(p, (id, w))) =~= persistent_data(d).update(
                    p,
                    (id, (d[p].1.module, v)),
                ));
            } else {
                assert(persistent_data(d.update(p, (id, w))) =~= persistent_data(d));
            }
        }
    }
}

/// Replaying a change on models with the same persistent part, for any two
/// viewing users, gives, when both replays go through, models with the same
/// persistent part.
proof fn lemma_change_step_persistent<M: ModuleCode>(
    reg: Set<ModuleId>,
    code: M,
    m1: ViewModel,
    m2: ViewModel,
    c: Change,
    b1: bool,
    b2: bool,
)
    requires
        persistent_part(m1) == persistent_part(m2),
        change_step(reg, code, m1, c, b1) is Ok,
        change_step(reg, code, m2, c, b2) is Ok,
    ensures
        persistent_part(change_step(reg, code, m1, c, b1)->Ok_0) == persistent_part(
            change_step(reg, code, m2, c, b2)->Ok_0,
        ),
{
    assert(m1.documents == m2.documents);
    match c {
        Change::DeleteDocument(id) => {
            let p = first_pos(m1.documents, id);
            if p >= 0 {
                lemma_persistent_assoc_remove_all(m1.data, m1.documents[p].1);
                lemma_persistent_assoc_remove_all(m2.data, m2.documents[p].1);
            }
        },
        Change::CreateData { id, module, owner } => {
            lemma_persistent_assoc_set(m1.data, id, fresh_model(code, module));
            lemma_persistent_assoc_set(m2.data, id, fresh_model(code, module));
        },
        Change::DeleteData(id) => {
            lemma_persistent_assoc_remove(m1.data, id);
            lemma_persistent_assoc_remove(m2.data, id);
        },
        Change::Transaction { id, args } => {
            lemma_persistent_transact(code, m1.data, id, args, Section::Persistent);
            lemma_persistent_transact(code, m2.data, id, args, Section::Persistent);
        },
        Change::UserTransaction { id, args } => {
            lemma_persistent_transact(code, m1.data, id, args, Section::PersistentUser);
            lemma_persistent_transact(code, m2.data, id, args, Section::PersistentUser);
        },
        _ => {},
    }
}

proof fn lemma_changes_step_persistent<M: ModuleCode>(
    reg: Set<ModuleId>,
    code: M,
    m1: ViewModel,
    m2: ViewModel,
    cs: Seq<Change>,
    b1: bool,
    b2: bool,
)
    requires
        persistent_part(m1) == persistent_part(m2),
        changes_step(reg, code, m1, cs, b1) is Ok,
        changes_step(reg, code, m2, cs, b2) is Ok,
    ensures
        persistent_part(changes_step(reg, code, m1, cs, b1)->Ok_0) == persistent_part(
            changes_step(reg, code, m2, cs, b2)->Ok_0,
        ),
    decreases cs.len(),
{
    if cs.len() > 0 {
        lemma_changes_step_persistent(reg, code, m1, m2, cs.drop_last(), b1, b2);
        let x1 = changes_step(reg, code, m1, cs.drop_last(), b1)->Ok_0;
        let x2 = changes_step(reg, code, m2, cs.drop_last(), b2)->Ok_0;
        lemma_change_step_persistent(reg, code, x1, x2, cs.last(), b1, b2);
    }
}

/// Replaying one log for two viewing users gives, when both replays go
/// through, the same known sessions and models with the same persistent
/// part.
pub proof fn lemma_replay_persistent<M: ModuleCode>(
    reg: Set<ModuleId>,
    code: M,
    log: Seq<LogEntry>,
    view: BranchId,
    as_of: u64,
    u1: UserId,
    u2: UserId,
    n: int,
)
    requires
        replay_log(reg, code, log, view, as_of, u1, n) is Ok,
        replay_log(reg, code, log, view, as_of, u2, n) is Ok,
    ensures
        persistent_part(replay_log(reg, code, log, view, as_of, u1, n)->Ok_0.0) == persistent_part(
            replay_log(reg, code, log, view, as_of, u2, n)->Ok_0.0,
        ),
        replay_log(reg, code, log, view, as_of, u1, n)->Ok_0.1 == replay_log(
            reg,
            code,
            log,
            view,
            as_of,
            u2,
            n,
        )->Ok_0.1,
    decreases n,
{
    if n > 0 {
        lemma_replay_persistent(reg, code, log, view, as_of, u1, u2, n - 1);
        let (m1, ss) = replay_log(reg, code, log, view, as_of, u1, n - 1)->Ok_0;
        let (m2, _) = replay_log(reg, code, log, view, as_of, u2, n - 1)->Ok_0;
        let e = log[n - 1];
        if in_scope(e, as_of) {
            if let LogPayload::Changes(cs) = e.payload {
                if entry_active(log, n - 1, as_of) && entry_visible(log, n - 1, view, as_of) {
                    lemma_changes_step_persistent(
                        reg,
                        code,
                        m1,
                        m2,
                        cs@,
                        user_of(ss, e.session) == Some(u1),
                        user_of(ss, e.session) == Some(u2),
                    );
                }
            }
        }
    }
}

/// Laying sections over the session or shared section keeps the persistent
/// part of the data.
pub proof fn lemma_overlay_persistent(
    reg: Set<ModuleId>,
    data: Seq<(DataId, DataModel)>,
    stored: Seq<(DataId, ErasedSection)>,
    s: Section,
)
    requires
        s == Section::Session || s == Section::Shared,
        overlay(reg, data, stored, s) is Ok,
    ensures
        persistent_data(overlay(reg, data, stored, s)->Ok_0) == persistent_data(data),
    decreases stored.len(),
{
    if stored.len() > 0 {
        lemma_overlay_persistent(reg, data, stored.drop_last(), s);
        let d = overlay(reg, data, stored.drop_last(), s)->Ok_0;
        let (id, sec) = stored.last();
        let p = first_pos(d, id);
        lemma_first_pos(d, id);
        if p >= 0 && d[p].1.module == sec.module {
            assert(persistent_data(d.update(p, (id, with_section(d[p].1, s, sec.data@)))) =~= persistent_data(d));
        }
    }
}

/// Laying any kept sections over a model keeps its persistent part.
pub proof fn lemma_kept_sections_persistent(reg: Set<ModuleId>, m: ViewModel, p: Project)
    requires
        with_kept_sections(reg, m, p) is Ok,
    ensures
        persistent_part(with_kept_sections(reg, m, p)->Ok_0) == persistent_part(m),
{
    lemma_overlay_persistent(reg, m.data, p.session_data@, Section::Session);
    let d1 = overlay(reg, m.data, p.session_data@, Section::Session)->Ok_0;
    lemma_overlay_persistent(reg, d1, p.shared_data@, Section::Shared);
}

} // verus!

//! A document shared by several editing sessions, with one transaction
//! history for all of them and undo and redo per session.
//!
//! The document data and the user data of a document are changed by
//! reversible transactions. Each applied transaction is recorded, with the
//! session that applied it, in the history. A session undoes and redoes its
//! own transactions; transactions of other sessions that came later and act
//! on the same data are taken back and applied again around them, and one
//! that no longer applies is kept as failed.

use vstd::prelude::*;
use std::fmt::Debug;
use std::hash::Hash;
use crate::ids::SessionId;

verus! {

/// A transaction on a data section, implemented by the application for the
/// data of its modules.
///
/// What a transaction does is stated by [`DocumentTransaction::apply_spec`],
/// which an implementation verified with this library defines; `apply`
/// returns what it states, and leaves the data as it was when it fails.
/// An implementation written outside verified code keeps the default of
/// `apply_spec`, of which nothing is known, and owes the contract of
/// `apply` unchecked. [`NumberCell`] is a verified implementation.
pub trait DocumentTransaction: Sized {
    /// The arguments of a transaction.
    type Args: Clone + Debug + PartialEq + Hash;
    /// Why a transaction could not be applied.
    type Error: Clone + Debug + PartialEq;
    /// What an applied transaction returns.
    type Output: Clone + Debug + PartialEq;

    /// The data after applying the transaction `args` to `d`, with what it
    /// returns, or the error with which it fails.
    closed spec fn apply_spec(d: Self, args: Self::Args) -> Result<(Self, Self::Output), Self::Error> {
        vstd::pervasive::arbitrary()
    }

    /// Applies the transaction described by `args`.
    fn apply(&mut self, args: &Self::Args) -> (r: Result<Self::Output, Self::Error>)
        ensures
            match r {
                Ok(o) => Self::apply_spec(*old(self), *args) == Ok::<(Self, Self::Output), Self::Error>(
                    (*final(self), o),
                ),
                Err(e) => Self::apply_spec(*old(self), *args) == Err::<(Self, Self::Output), Self::Error>(e)
                    && *final(self) == *old(self),
            },
    ;

    /// A short name of the transaction for the undo history.
    fn undo_history_name(args: &Self::Args) -> String;
}

/// A transaction that can be taken back.
///
/// Besides [`DocumentTransaction::apply_spec`], an implementation defines
/// the undo data that an applied transaction hands out
/// ([`ReversibleDocumentTransaction::undo_data_spec`]) and what taking back
/// with undo data does ([`ReversibleDocumentTransaction::undo_spec`]); taking
/// back an applied transaction with its undo data restores the data as it
/// was before. As for [`DocumentTransaction`], an implementation written
/// outside verified code keeps defaults of which nothing is known.
pub trait ReversibleDocumentTransaction: DocumentTransaction {
    /// What is needed to take an applied transaction back.
    type UndoData: Clone + Debug + PartialEq + Hash;

    /// The undo data that applying `args` to `d` hands out.
    closed spec fn undo_data_spec(d: Self, args: Self::Args) -> Self::UndoData {
        vstd::pervasive::arbitrary()
    }

    /// The data after taking back, from `d`, the transaction whose undo
    /// data is `u`.
    closed spec fn undo_spec(d: Self, u: Self::UndoData) -> Self {
        vstd::pervasive::arbitrary()
    }

    /// Applies the transaction and returns, besides its output, the data
    /// that takes it back.
    fn apply_reversible(&mut self, args: &Self::Args) -> (r: Result<(Self::Output, Self::UndoData), Self::Error>)
        ensures
            match r {
                Ok((o, u)) => {
                    &&& Self::apply_spec(*old(self), *args) == Ok::<(Self, Self::Output), Self::Error>(
                        (*final(self), o),
                    )
                    &&& u == Self::undo_data_spec(*old(self), *args)
                    &&& Self::undo_spec(*final(self), u) == *old(self)
                },
                Err(e) => Self::apply_spec(*old(self), *args) == Err::<(Self, Self::Output), Self::Error>(e)
                    && *final(self) == *old(self),
            },
    ;

    /// Takes back the transaction whose undo data is `undo_data`.
    fn undo(&mut self, undo_data: Self::UndoData)
        ensures
            *final(self) == Self::undo_spec(*old(self), undo_data),
    ;
}

/// A section holding one odd number, which a transaction replaces
/// (returning the number it replaced); an even number is refused, with
/// itself as the error. Taking a transaction back puts the number before
/// it back.
#[derive(Debug, Clone, Copy, PartialEq, Eq)]
pub struct NumberCell {
    pub value: u64,
}

impl Default for NumberCell {
    fn default() -> (r: NumberCell)
        ensures
            r.value == 1,
    {
        NumberCell { value: 1 }
    }
}

impl DocumentTransaction for NumberCell {
    type Args = u64;
    type Error = u64;
    type Output = u64;

    open spec fn apply_spec(d: NumberCell, args: u64) -> Result<(NumberCell, u64), u64> {
        if args % 2 == 0 {
            Err(args)
        } else {
            Ok((NumberCell { value: args }, d.value))
        }
    }

    fn apply(&mut self, args: &u64) -> (r: Result<u64, u64>) {
        if *args % 2 == 0 {
            return Err(*args);
        }
        let before = self.value;
        self.value = *args;
        Ok(before)
    }

    fn undo_history_name(args: &u64) -> String {
        String::from_str("set")
    }
}

impl ReversibleDocumentTransaction for NumberCell {
    type UndoData = u64;

    open spec fn undo_data_spec(d: NumberCell, args: u64) -> u64 {
        d.value
    }

    open spec fn undo_spec(d: NumberCell, u: u64) -> NumberCell {
        NumberCell { value: u }
    }

    fn apply_reversible(&mut self, args: &u64) -> (r: Result<(u64, u64), u64>) {
        if *args % 2 == 0 {
            return Err(*args);
        }
        let before = self.value;
        self.value = *args;
        Ok((before, before))
    }

    fn undo(&mut self, undo_data: u64) {
        self.value = undo_data;
    }
}

/// An applied transaction: what takes it back and what applies it again.
#[derive(Debug, Clone, PartialEq)]
pub struct UndoUnit<T: ReversibleDocumentTransaction> {
    pub undo_data: T::UndoData,
    pub args: T::Args,
}

/// An applied transaction on the document data or on the user data.
#[derive(Debug, Clone, PartialEq)]
pub enum AppliedTransaction<D: ReversibleDocumentTransaction, U: ReversibleDocumentTransaction> {
    Document(UndoUnit<D>),
    User(UndoUnit<U>),
}

/// A transaction that is not applied, by the arguments that would apply it.
#[derive(Debug, Clone, PartialEq)]
pub enum UndoneTransaction<D: ReversibleDocumentTransaction, U: ReversibleDocumentTransaction> {
    Document(D::Args),
    User(U::Args),
}

/// Where a transaction of the history stands.
#[derive(Debug, Clone, PartialEq)]
pub enum TransactionState<D: ReversibleDocumentTransaction, U: ReversibleDocumentTransaction> {
    /// Applied, and can be undone.
    Applied(AppliedTransaction<D, U>),
    /// Undone by its session, and can be redone.
    Undone(UndoneTransaction<D, U>),
    /// Could not be applied again after an earlier transaction was undone or redone.
    Failed(UndoneTransaction<D, U>),
}

/// One transaction of the history, with the session that applied it.
#[derive(Debug, Clone, PartialEq)]
pub struct TransactionHistoryState<D: ReversibleDocumentTransaction, U: ReversibleDocumentTransaction> {
    pub session: SessionId,
    pub name: String,
    pub state: TransactionState<D, U>,
}

/// The transaction of a state, by its section and arguments.
pub open spec fn transaction_of<D: ReversibleDocumentTransaction, U: ReversibleDocumentTransaction>(
    st: TransactionState<D, U>,
) -> UndoneTransaction<D, U> {
    match st {
        TransactionState::Applied(AppliedTransaction::Document(u)) => UndoneTransaction::Document(u.args),
        TransactionState::Applied(AppliedTransaction::User(u)) => UndoneTransaction::User(u.args),
        TransactionState::Undone(t) => t,
        TransactionState::Failed(t) => t,
    }
}

/// Whether `e` is a transaction of session `s` that is applied or failed:
/// one that undo by `s` takes back.
pub open spec fn is_active_of<D: ReversibleDocumentTransaction, U: ReversibleDocumentTransaction>(
    e: TransactionHistoryState<D, U>,
    s: SessionId,
) -> bool {
    e.session == s && !(e.state is Undone)
}

/// Whether the transaction of `st` acts on the document data (rather than
/// on the user data).
pub open spec fn on_document<D: ReversibleDocumentTransaction, U: ReversibleDocumentTransaction>(
    st: TransactionState<D, U>,
) -> bool {
    transaction_of(st) is Document
}

/// Walking back from position `k` with `left` transactions of session `s`
/// still to undo: the position where the walk stops. Undo rewrites the
/// history from there to its end.
pub open spec fn undo_start<D: ReversibleDocumentTransaction, U: ReversibleDocumentTransaction>(
    h: Seq<TransactionHistoryState<D, U>>,
    s: SessionId,
    k: nat,
    left: nat,
) -> nat
    decreases k,
{
    if k == 0 || left == 0 {
        k
    } else if is_active_of(h[k - 1], s) {
        undo_start(h, s, (k - 1) as nat, (left - 1) as nat)
    } else {
        undo_start(h, s, (k - 1) as nat, left)
    }
}

/// Among the last `left` applied transactions of session `s` before
/// position `k`, the position of the earliest that acts on the document data
/// (`doc`) or on the user data (`!doc`); the length of the history if there
/// is none. Later transactions of other sessions on the same data are taken
/// back and applied again.
pub open spec fn undo_earliest<D: ReversibleDocumentTransaction, U: ReversibleDocumentTransaction>(
    h: Seq<TransactionHistoryState<D, U>>,
    s: SessionId,
    k: nat,
    left: nat,
    doc: bool,
) -> int
    decreases k,
{
    if k == 0 || left == 0 {
        h.len() as int
    } else if h[k - 1].session == s && h[k - 1].state is Applied {
        let deeper = undo_earliest(h, s, (k - 1) as nat, (left - 1) as nat, doc);
        if deeper == h.len() && on_document(h[k - 1].state) == doc {
            k - 1
        } else {
            deeper
        }
    } else {
        undo_earliest(h, s, (k - 1) as nat, left, doc)
    }
}

/// `e` with its transaction marked as not applied.
pub open spec fn as_undone<D: ReversibleDocumentTransaction, U: ReversibleDocumentTransaction>(
    e: TransactionHistoryState<D, U>,
) -> TransactionHistoryState<D, U> {
    TransactionHistoryState { session: e.session, name: e.name, state: TransactionState::Undone(transaction_of(e.state)) }
}

/// What undo by session `s` makes of the transaction `e` at position `i`
/// (from the start of the rewritten part on), `ed` and `eu` being the
/// earliest positions of [`undo_earliest`]; and whether it is applied again
/// afterwards.
pub open spec fn undo_mark<D: ReversibleDocumentTransaction, U: ReversibleDocumentTransaction>(
    e: TransactionHistoryState<D, U>,
    s: SessionId,
    i: int,
    ed: int,
    eu: int,
) -> (TransactionHistoryState<D, U>, bool) {
    let earliest = if on_document(e.state) { ed } else { eu };
    match e.state {
        TransactionState::Undone(_) => (e, false),
        TransactionState::Failed(_) => if e.session == s {
            (as_undone(e), false)
        } else {
            (e, i >= earliest)
        },
        TransactionState::Applied(_) => if e.session == s {
            (as_undone(e), false)
        } else if i > earliest {
            (as_undone(e), true)
        } else {
            (e, false)
        },
    }
}

/// `e` is what `m.0` became: itself, or, when `m.1` says it is applied
/// again, the same transaction of the same session, now applied or failed.
pub open spec fn settled_as<D: ReversibleDocumentTransaction, U: ReversibleDocumentTransaction>(
    e: TransactionHistoryState<D, U>,
    m: (TransactionHistoryState<D, U>, bool),
) -> bool {
    if m.1 {
        &&& e.session == m.0.session
        &&& e.name == m.0.name
        &&& transaction_of(e.state) == transaction_of(m.0.state)
        &&& !(e.state is Undone)
    } else {
        e == m.0
    }
}

/// The history `new` after undo of `n` transactions by session `s` on `old`.
pub open spec fn undo_result<D: ReversibleDocumentTransaction, U: ReversibleDocumentTransaction>(
    old: Seq<TransactionHistoryState<D, U>>,
    new: Seq<TransactionHistoryState<D, U>>,
    s: SessionId,
    n: nat,
) -> bool {
    let c = undo_start(old, s, old.len(), n) as int;
    let ed = undo_earliest(old, s, old.len(), n, true);
    let eu = undo_earliest(old, s, old.len(), n, false);
    &&& new.len() == old.len()
    &&& forall|i: int| 0 <= i < c ==> new[i] == old[i]
    &&& forall|i: int| c <= i < old.len() ==> settled_as(new[i], undo_mark(old[i], s, i, ed, eu))
}

/// One past the last applied or failed transaction of session `s` before
/// position `k` (0 if there is none): redo by `s` rewrites the history from
/// there to its end.
pub open spec fn redo_start<D: ReversibleDocumentTransaction, U: ReversibleDocumentTransaction>(
    h: Seq<TransactionHistoryState<D, U>>,
    s: SessionId,
    k: nat,
) -> nat
    decreases k,
{
    if k == 0 {
        0
    } else if is_active_of(h[k - 1], s) {
        k
    } else {
        redo_start(h, s, (k - 1) as nat)
    }
}

/// Whether `e` is an undone transaction of session `s`.
pub open spec fn is_undone_of<D: ReversibleDocumentTransaction, U: ReversibleDocumentTransaction>(
    e: TransactionHistoryState<D, U>,
    s: SessionId,
) -> bool {
    e.session == s && e.state is Undone
}

/// How many of the `n` transactions that redo by `s` is asked for are left
/// when it reaches position `i`, having started at `start`.
pub open spec fn redo_left_at<D: ReversibleDocumentTransaction, U: ReversibleDocumentTransaction>(
    h: Seq<TransactionHistoryState<D, U>>,
    s: SessionId,
    n: nat,
    start: int,
    i: int,
) -> nat
    decreases i - start,
{
    if i <= start {
        n
    } else {
        let l = redo_left_at(h, s, n, start, i - 1);
        if is_undone_of(h[i - 1], s) && l > 0 {
            (l - 1) as nat
        } else {
            l
        }
    }
}

/// Whether redo by `s`, started at `start`, has redone a transaction on the
/// document data (`doc`) or on the user data (`!doc`) before position `i`.
pub open spec fn redo_touched_at<D: ReversibleDocumentTransaction, U: ReversibleDocumentTransaction>(
    h: Seq<TransactionHistoryState<D, U>>,
    s: SessionId,
    n: nat,
    start: int,
    i: int,
    doc: bool,
) -> bool
    decreases i - start,
{
    if i <= start {
        false
    } else {
        ||| redo_touched_at(h, s, n, start, i - 1, doc)
        ||| is_undone_of(h[i - 1], s) && redo_left_at(h, s, n, start, i - 1) > 0 && on_document(h[i - 1].state)
            == doc
    }
}

/// Whether redo of `n` transactions by `s` applies the transaction at
/// position `i` (at or after `start`) again: one of the undone transactions
/// of `s` it is asked for, or a transaction of another session on data that
/// a redone transaction before it acts on.
pub open spec fn redo_reapplies<D: ReversibleDocumentTransaction, U: ReversibleDocumentTransaction>(
    h: Seq<TransactionHistoryState<D, U>>,
    s: SessionId,
    n: nat,
    start: int,
    i: int,
) -> bool {
    if h[i].state is Undone {
        h[i].session == s && redo_left_at(h, s, n, start, i) > 0
    } else {
        redo_touched_at(h, s, n, start, i, on_document(h[i].state))
    }
}

/// The history `new` after redo of `n` transactions by session `s` on `old`.
pub open spec fn redo_result<D: ReversibleDocumentTransaction, U: ReversibleDocumentTransaction>(
    old: Seq<TransactionHistoryState<D, U>>,
    new: Seq<TransactionHistoryState<D, U>>,
    s: SessionId,
    n: nat,
) -> bool {
    let start = redo_start(old, s, old.len()) as int;
    &&& new.len() == old.len()
    &&& forall|i: int| 0 <= i < start ==> new[i] == old[i]
    &&& forall|i: int|
        start <= i < old.len() ==> settled_as(new[i], redo_mark(old[i], redo_reapplies(old, s, n, start, i)))
}

/// What redo makes of the transaction `e` before applying again those it
/// applies again (`again`): those are taken back first.
pub open spec fn redo_mark<D: ReversibleDocumentTransaction, U: ReversibleDocumentTransaction>(
    e: TransactionHistoryState<D, U>,
    again: bool,
) -> (TransactionHistoryState<D, U>, bool) {
    if again && !(e.state is Undone) {
        (as_undone(e), true)
    } else {
        (e, again)
    }
}

/// The document and user data `(d, u)` after taking back the transaction
/// of `e`, when it is applied, with its undo data.
pub open spec fn taken_back<D: ReversibleDocumentTransaction, U: ReversibleDocumentTransaction>(
    d: D,
    u: U,
    e: TransactionHistoryState<D, U>,
) -> (D, U) {
    match e.state {
        TransactionState::Applied(AppliedTransaction::Document(x)) => (D::undo_spec(d, x.undo_data), u),
        TransactionState::Applied(AppliedTransaction::User(x)) => (d, U::undo_spec(u, x.undo_data)),
        _ => (d, u),
    }
}

/// The document and user data after applying the transaction of `e` again
/// to `(d, u)`, and what `e` then becomes: applied, with the new undo data,
/// or failed when the transaction does not apply.
pub open spec fn applied_again<D: ReversibleDocumentTransaction, U: ReversibleDocumentTransaction>(
    d: D,
    u: U,
    e: TransactionHistoryState<D, U>,
) -> (D, U, TransactionHistoryState<D, U>) {
    match transaction_of(e.state) {
        UndoneTransaction::Document(args) => match D::apply_spec(d, args) {
            Ok((d2, _)) => (
                d2,
                u,
                TransactionHistoryState {
                    session: e.session,
                    name: e.name,
                    state: TransactionState::Applied(
                        AppliedTransaction::Document(UndoUnit { undo_data: D::undo_data_spec(d, args), args }),
                    ),
                },
            ),
            Err(_) => (
                d,
                u,
                TransactionHistoryState {
                    session: e.session,
                    name: e.name,
                    state: TransactionState::Failed(UndoneTransaction::Document(args)),
                },
            ),
        },
        UndoneTransaction::User(args) => match U::apply_spec(u, args) {
            Ok((u2, _)) => (
                d,
                u2,
                TransactionHistoryState {
                    session: e.session,
                    name: e.name,
                    state: TransactionState::Applied(
                        AppliedTransaction::User(UndoUnit { undo_data: U::undo_data_spec(u, args), args }),
                    ),
                },
            ),
            Err(_) => (
                d,
                u,
                TransactionHistoryState {
                    session: e.session,
                    name: e.name,
                    state: TransactionState::Failed(UndoneTransaction::User(args)),
                },
            ),
        },
    }
}

/// The data `(d, u)` after taking back, from the last one down to position
/// `k`, the transactions of `h` at the positions that `taken` picks.
pub open spec fn unwound<D: ReversibleDocumentTransaction, U: ReversibleDocumentTransaction>(
    d: D,
    u: U,
    h: Seq<TransactionHistoryState<D, U>>,
    taken: spec_fn(int) -> bool,
    k: int,
) -> (D, U)
    decreases h.len() - k,
{
    if k < 0 || k >= h.len() {
        (d, u)
    } else {
        let (d1, u1) = unwound(d, u, h, taken, k + 1);
        if taken(k) {
            taken_back(d1, u1, h[k])
        } else {
            (d1, u1)
        }
    }
}

/// Putting back the transactions `marks`, first first, on the data `(d, u)`:
/// each with whether to apply it again. The data after it, and the
/// transactions as they then stand.
pub open spec fn settled<D: ReversibleDocumentTransaction, U: ReversibleDocumentTransaction>(
    d: D,
    u: U,
    marks: Seq<(TransactionHistoryState<D, U>, bool)>,
) -> (D, U, Seq<TransactionHistoryState<D, U>>)
    decreases marks.len(),
{
    if marks.len() == 0 {
        (d, u, Seq::empty())
    } else {
        let (d1, u1, e1) = if marks[0].1 {
            applied_again(d, u, marks[0].0)
        } else {
            (d, u, marks[0].0)
        };
        let (d2, u2, es) = settled(d1, u1, marks.skip(1));
        (d2, u2, seq![e1] + es)
    }
}

/// Reversing `t` with `m` pushed puts `m` first.
proof fn lemma_reverse_push<A>(t: Seq<A>, m: A)
    ensures
        t.push(m).reverse() == seq![m] + t.reverse(),
{
    assert(t.push(m).reverse() =~= seq![m] + t.reverse());
}

/// The history and the document and user data after undo of `n`
/// transactions by session `s` on history `h` with data `(d, u)`: from the
/// end back to [`undo_start`], the applied transactions that [`undo_mark`]
/// marks as undone are taken back; then, in order, each transaction of
/// that part is put back as marked, those to apply again applied again.
pub open spec fn undo_outcome<D: ReversibleDocumentTransaction, U: ReversibleDocumentTransaction>(
    h: Seq<TransactionHistoryState<D, U>>,
    d: D,
    u: U,
    s: SessionId,
    n: nat,
) -> (Seq<TransactionHistoryState<D, U>>, D, U) {
    let c = undo_start(h, s, h.len(), n) as int;
    let ed = undo_earliest(h, s, h.len(), n, true);
    let eu = undo_earliest(h, s, h.len(), n, false);
    let taken = |i: int| h[i].state is Applied && undo_mark(h[i], s, i, ed, eu).0.state is Undone;
    let (dm, um) = unwound(d, u, h, taken, c);
    let marks = Seq::new((h.len() - c) as nat, |j: int| undo_mark(h[c + j], s, c + j, ed, eu));
    let (d2, u2, tail) = settled(dm, um, marks);
    (h.take(c) + tail, d2, u2)
}

/// The history and the document and user data after redo of `n`
/// transactions by session `s` on history `h` with data `(d, u)`: from the
/// end back to [`redo_start`], the applied transactions that redo applies
/// again ([`redo_reapplies`]) are taken back; then, in order, each
/// transaction of that part is put back, those that redo applies again
/// applied again.
pub open spec fn redo_outcome<D: ReversibleDocumentTransaction, U: ReversibleDocumentTransaction>(
    h: Seq<TransactionHistoryState<D, U>>,
    d: D,
    u: U,
    s: SessionId,
    n: nat,
) -> (Seq<TransactionHistoryState<D, U>>, D, U) {
    let start = redo_start(h, s, h.len()) as int;
    let taken = |i: int| h[i].state is Applied && redo_reapplies(h, s, n, start, i);
    let (dm, um) = unwound(d, u, h, taken, start);
    let marks = Seq::new(
        (h.len() - start) as nat,
        |j: int| redo_mark(h[start + j], redo_reapplies(h, s, n, start, start + j)),
    );
    let (d2, u2, tail) = settled(dm, um, marks);
    (h.take(start) + tail, d2, u2)
}

/// The names of the transactions of session `s`, in order.
pub open spec fn session_names<D: ReversibleDocumentTransaction, U: ReversibleDocumentTransaction>(
    h: Seq<TransactionHistoryState<D, U>>,
    s: SessionId,
) -> Seq<String>
    decreases h.len(),
{
    if h.len() == 0 {
        Seq::empty()
    } else if h.last().session == s {
        session_names(h.drop_last(), s).push(h.last().name)
    } else {
        session_names(h.drop_last(), s)
    }
}

/// The data of a document as its sessions share it.
pub struct InternalDocumentModel<
    D: ReversibleDocumentTransaction,
    U: ReversibleDocumentTransaction,
    Sh: DocumentTransaction,
> {
    /// The document data.
    pub document_data: D,
    /// The transactions of all sessions, oldest first.
    pub transaction_history: Vec<TransactionHistoryState<D, U>>,
    /// The user data.
    pub user_data: U,
    /// The data shared by the open sessions; there is none while no session is open.
    pub shared_data: Option<Sh>,
    /// The open sessions.
    pub sessions: Vec<SessionId>,
}

impl<
    D: ReversibleDocumentTransaction,
    U: ReversibleDocumentTransaction,
    Sh: DocumentTransaction,
> InternalDocumentModel<D, U, Sh> {
    /// A document with the given data, no transaction and no open session.
    pub fn new(document_data: D, user_data: U) -> (r: Self)
        ensures
            r.document_data == document_data,
            r.user_data == user_data,
            r.transaction_history@.len() == 0,
            r.shared_data is None,
            r.sessions@.len() == 0,
    {
        InternalDocumentModel { document_data, transaction_history: Vec::new(), user_data, shared_data: None, sessions: Vec::new() }
    }

    /// Applies a transaction to the user data for `session`, which must be
    /// open, and records it in the history; when it fails, the history is
    /// left as it was.
    pub fn apply_user(&mut self, args: U::Args, session: SessionId) -> (r: Result<U::Output, U::Error>)
        requires
            old(self).sessions@.contains(session),
        ensures
            match r {
                Ok(_) => final(self).transaction_history@.len() == old(self).transaction_history@.len() + 1
                    && final(self).transaction_history@.take(old(self).transaction_history@.len() as int)
                    == old(self).transaction_history@
                    && final(self).transaction_history@.last().session == session
                    && final(self).transaction_history@.last().state is Applied
                    && transaction_of(final(self).transaction_history@.last().state)
                    == UndoneTransaction::<D, U>::User(args),
                Err(_) => final(self).transaction_history@ == old(self).transaction_history@,
            },
            match r {
                Ok(o) => {
                    &&& U::apply_spec(old(self).user_data, args) == Ok::<(U, U::Output), U::Error>(
                        (final(self).user_data, o),
                    )
                    &&& final(self).transaction_history@.last().state == (TransactionState::<D, U>::Applied(
                        AppliedTransaction::User(UndoUnit { undo_data: U::undo_data_spec(old(self).user_data, args), args }),
                    ))
                },
                Err(e) => U::apply_spec(old(self).user_data, args) == Err::<(U, U::Output), U::Error>(e)
                    && final(self).user_data == old(self).user_data,
            },
            final(self).sessions == old(self).sessions,
            final(self).shared_data == old(self).shared_data,
            final(self).document_data == old(self).document_data,
    {
        let applied = self.user_data.apply_reversible(&args);
        match applied {
            Err(e) => Err(e),
            Ok((output, undo_data)) => {
                let name = U::undo_history_name(&args);
                self.transaction_history.push(
                    TransactionHistoryState {
                        session,
                        name,
                        state: TransactionState::Applied(AppliedTransaction::User(UndoUnit { undo_data, args })),
                    },
                );
                Ok(output)
            },
        }
    }

    /// Applies a transaction to the data shared by the open sessions, which
    /// must exist; it is not recorded in the history and cannot be undone.
    pub fn apply_shared(&mut self, args: &Sh::Args, session: SessionId) -> (r: Result<Sh::Output, Sh::Error>)
        requires
            old(self).shared_data is Some,
        ensures
            final(self).shared_data is Some,
            match r {
                Ok(o) => Sh::apply_spec(old(self).shared_data->0, *args) == Ok::<(Sh, Sh::Output), Sh::Error>(
                    (final(self).shared_data->0, o),
                ),
                Err(e) => Sh::apply_spec(old(self).shared_data->0, *args) == Err::<(Sh, Sh::Output), Sh::Error>(e)
                    && final(self).shared_data == old(self).shared_data,
            },
            final(self).transaction_history@ == old(self).transaction_history@,
            final(self).sessions == old(self).sessions,
            final(self).document_data == old(self).document_data,
            final(self).user_data == old(self).user_data,
    {
        let shared = self.shared_data.as_mut().unwrap();
        shared.apply(args)
    }

    /// Closes `session`: it is no longer open, and when no session is left
    /// open the shared data is dropped.
    pub fn close_session(&mut self, session: SessionId)
        ensures
            final(self).sessions@ == old(self).sessions@.filter(|x: SessionId| x != session),
            final(self).shared_data == (if final(self).sessions@.len() == 0 {
                None
            } else {
                old(self).shared_data
            }),
            final(self).transaction_history@ == old(self).transaction_history@,
            final(self).document_data == old(self).document_data,
            final(self).user_data == old(self).user_data,
    {
        let ghost s0 = self.sessions@;
        let mut kept: Vec<SessionId> = Vec::new();
        let mut i: usize = 0;
        while i < self.sessions.len()
            invariant
                s0 == self.sessions@,
                i <= s0.len(),
                kept@ == s0.take(i as int).filter(|x: SessionId| x != session),
            decreases s0.len() - i,
        {
            let x = self.sessions[i];
            assert(s0.take(i + 1).drop_last() == s0.take(i as int));
            assert(s0.take(i + 1).last() == x);
            reveal_with_fuel(Seq::filter, 1);
            if x != session {
                kept.push(x);
            }
            i += 1;
        }
        assert(s0.take(s0.len() as int) == s0);
        self.sessions = kept;
        if self.sessions.len() == 0 {
            self.shared_data = None;
        }
    }

    /// The names of the transactions of `session`, in order, and how many of
    /// them come up to its last applied or failed one: those can be undone,
    /// the undone ones after them redone.
    pub fn undo_redo_list(&self, session: SessionId) -> (r: (Vec<String>, usize))
        ensures
            r.0@ == session_names(self.transaction_history@, session),
            r.1 == session_names(
                self.transaction_history@.take(
                    redo_start(self.transaction_history@, session, self.transaction_history@.len()) as int,
                ),
                session,
            ).len(),
    {
        let ghost h = self.transaction_history@;
        let mut names: Vec<String> = Vec::new();
        let mut position: usize = 0;
        let mut i: usize = 0;
        while i < self.transaction_history.len()
            invariant
                h == self.transaction_history@,
                i <= h.len(),
                names@ == session_names(h.take(i as int), session),
                position == session_names(h.take(redo_start(h, session, i as nat) as int), session).len(),
                names@.len() <= i,
            decreases h.len() - i,
        {
            let e = &self.transaction_history[i];
            assert(h.take(i + 1).drop_last() == h.take(i as int));
            assert(h.take(i + 1).last() == h[i as int]);
            if e.session == session {
                names.push(e.name.clone());
                match &e.state {
                    TransactionState::Undone(_) => {},
                    _ => {
                        position = names.len();
                    },
                }
            }
            i += 1;
        }
        assert(h.take(h.len() as int) == h);
        (names, position)
    }

    /// Applies a transaction to the document data for `session` and records
    /// it in the history; when it fails, the history is left as it was.
    pub fn apply_document(&mut self, args: D::Args, session: SessionId) -> (r: Result<D::Output, D::Error>)
        ensures
            match r {
                Ok(_) => final(self).transaction_history@.len() == old(self).transaction_history@.len() + 1
                    && final(self).transaction_history@.take(old(self).transaction_history@.len() as int)
                    == old(self).transaction_history@
                    && final(self).transaction_history@.last().session == session
                    && final(self).transaction_history@.last().state is Applied
                    && transaction_of(final(self).transaction_history@.last().state)
                    == UndoneTransaction::<D, U>::Document(args),
                Err(_) => final(self).transaction_history@ == old(self).transaction_history@,
            },
            match r {
                Ok(o) => {
                    &&& D::apply_spec(old(self).document_data, args) == Ok::<(D, D::Output), D::Error>(
                        (final(self).document_data, o),
                    )
                    &&& final(self).transaction_history@.last().state == (TransactionState::<D, U>::Applied(
                        AppliedTransaction::Document(UndoUnit { undo_data: D::undo_data_spec(old(self).document_data, args), args }),
                    ))
                },
                Err(e) => D::apply_spec(old(self).document_data, args) == Err::<(D, D::Output), D::Error>(e)
                    && final(self).document_data == old(self).document_data,
            },
            final(self).sessions == old(self).sessions,
            final(self).shared_data == old(self).shared_data,
            final(self).user_data == old(self).user_data,
    {
        let applied = self.document_data.apply_reversible(&args);
        match applied {
            Err(e) => Err(e),
            Ok((output, undo_data)) => {
                let name = D::undo_history_name(&args);
                self.transaction_history.push(
                    TransactionHistoryState {
                        session,
                        name,
                        state: TransactionState::Applied(AppliedTransaction::Document(UndoUnit { undo_data, args })),
                    },
                );
                Ok(output)
            },
        }
    }
}


impl<
    D: ReversibleDocumentTransaction,
    U: ReversibleDocumentTransaction,
    Sh: DocumentTransaction + Default,
> InternalDocumentModel<D, U, Sh> {
    /// Opens a new session with a random identifier. The first open session
    /// creates the shared data, with its default content.
    pub fn open_session(&mut self) -> (r: SessionId)
        ensures
            final(self).sessions@ == old(self).sessions@.push(r),
            final(self).shared_data is Some,
            old(self).shared_data is Some ==> final(self).shared_data == old(self).shared_data,
            final(self).transaction_history@ == old(self).transaction_history@,
            final(self).document_data == old(self).document_data,
            final(self).user_data == old(self).user_data,
    {
        if self.shared_data.is_none() {
            self.shared_data = Some(Sh::default());
        }
        let session = SessionId::new();
        self.sessions.push(session);
        session
    }
}

impl<
    D: ReversibleDocumentTransaction,
    U: ReversibleDocumentTransaction,
    Sh: DocumentTransaction,
> InternalDocumentModel<D, U, Sh> {
    /// The positions of [`undo_earliest`] for the document data and the user
    /// data, for undo of `n` transactions by `session`.
    fn earliest_undos(&self, session: SessionId, n: usize) -> (r: (usize, usize))
        ensures
            r.0 == undo_earliest(self.transaction_history@, session, self.transaction_history@.len(), n as nat, true),
            r.1 == undo_earliest(self.transaction_history@, session, self.transaction_history@.len(), n as nat, false),
    {
        let ghost h = self.transaction_history@;
        let len = self.transaction_history.len();
        let mut k = len;
        let mut left = n;
        let mut ed = len;
        let mut eu = len;
        while k > 0 && left > 0
            invariant
                h == self.transaction_history@,
                len == h.len(),
                k <= len,
                ed <= len,
                eu <= len,
                undo_earliest(h, session, len as nat, n as nat, true) == (if undo_earliest(
                    h,
                    session,
                    k as nat,
                    left as nat,
                    true,
                ) == len {
                    ed as int
                } else {
                    undo_earliest(h, session, k as nat, left as nat, true)
                }),
                undo_earliest(h, session, len as nat, n as nat, false) == (if undo_earliest(
                    h,
                    session,
                    k as nat,
                    left as nat,
                    false,
                ) == len {
                    eu as int
                } else {
                    undo_earliest(h, session, k as nat, left as nat, false)
                }),
            decreases k,
        {
            let e = &self.transaction_history[k - 1];
            if e.session == session {
                match &e.state {
                    TransactionState::Applied(AppliedTransaction::Document(_)) => {
                        ed = k - 1;
                        left -= 1;
                    },
                    TransactionState::Applied(AppliedTransaction::User(_)) => {
                        eu = k - 1;
                        left -= 1;
                    },
                    _ => {},
                }
            }
            k -= 1;
        }
        (ed, eu)
    }

    /// Applies the transaction of `e` again, to the data it acts on: it is
    /// then applied, or failed when it no longer applies.
    fn apply_again(&mut self, e: TransactionHistoryState<D, U>) -> (r: TransactionHistoryState<D, U>)
        ensures
            r.session == e.session,
            r.name == e.name,
            transaction_of(r.state) == transaction_of(e.state),
            !(r.state is Undone),
            (final(self).document_data, final(self).user_data, r) == applied_again(
                old(self).document_data,
                old(self).user_data,
                e,
            ),
            final(self).transaction_history@ == old(self).transaction_history@,
            final(self).sessions == old(self).sessions,
            final(self).shared_data == old(self).shared_data,
    {
        let TransactionHistoryState { session, name, state } = e;
        let t = match state {
            TransactionState::Applied(AppliedTransaction::Document(u)) => UndoneTransaction::Document(u.args),
            TransactionState::Applied(AppliedTransaction::User(u)) => UndoneTransaction::User(u.args),
            TransactionState::Undone(t) => t,
            TransactionState::Failed(t) => t,
        };
        let state = match t {
            UndoneTransaction::Document(args) => {
                match self.document_data.apply_reversible(&args) {
                    Ok((_, undo_data)) => TransactionState::Applied(
                        AppliedTransaction::Document(UndoUnit { undo_data, args }),
                    ),
                    Err(_) => TransactionState::Failed(UndoneTransaction::Document(args)),
                }
            },
            UndoneTransaction::User(args) => {
                match self.user_data.apply_reversible(&args) {
                    Ok((_, undo_data)) => TransactionState::Applied(AppliedTransaction::User(UndoUnit { undo_data, args })),
                    Err(_) => TransactionState::Failed(UndoneTransaction::User(args)),
                }
            },
        };
        TransactionHistoryState { session, name, state }
    }

    /// Takes back the transaction of `e`, which must be applied, from the
    /// data it acts on, and marks it as not applied.
    fn take_back(&mut self, e: TransactionHistoryState<D, U>) -> (r: TransactionHistoryState<D, U>)
        requires
            e.state is Applied,
        ensures
            r == as_undone(e),
            (final(self).document_data, final(self).user_data) == taken_back(
                old(self).document_data,
                old(self).user_data,
                e,
            ),
            final(self).transaction_history@ == old(self).transaction_history@,
            final(self).sessions == old(self).sessions,
            final(self).shared_data == old(self).shared_data,
    {
        let TransactionHistoryState { session, name, state } = e;
        let state = match state {
            TransactionState::Applied(AppliedTransaction::Document(u)) => {
                ReversibleDocumentTransaction::undo(&mut self.document_data, u.undo_data);
                TransactionState::Undone(UndoneTransaction::Document(u.args))
            },
            TransactionState::Applied(AppliedTransaction::User(u)) => {
                ReversibleDocumentTransaction::undo(&mut self.user_data, u.undo_data);
                TransactionState::Undone(UndoneTransaction::User(u.args))
            },
            TransactionState::Undone(t) => TransactionState::Undone(t),
            TransactionState::Failed(t) => TransactionState::Undone(t),
        };
        TransactionHistoryState { session, name, state }
    }

    /// Puts back the transactions of `tail`, which holds them last first,
    /// each with whether to apply it again.
    fn settle_tail(&mut self, tail: Vec<(TransactionHistoryState<D, U>, bool)>)
        ensures
            final(self).transaction_history@.len() == old(self).transaction_history@.len() + tail@.len(),
            final(self).transaction_history@.take(old(self).transaction_history@.len() as int)
                == old(self).transaction_history@,
            forall|j: int|
                0 <= j < tail@.len() ==> settled_as(
                    #[trigger] final(self).transaction_history@[old(self).transaction_history@.len() + j],
                    tail@[tail@.len() - 1 - j],
                ),
            settled(old(self).document_data, old(self).user_data, tail@.reverse()) == (
                final(self).document_data,
                final(self).user_data,
                final(self).transaction_history@.skip(old(self).transaction_history@.len() as int),
            ),
            final(self).sessions == old(self).sessions,
            final(self).shared_data == old(self).shared_data,
    {
        let ghost h0 = self.transaction_history@;
        let ghost t0 = tail@;
        let ghost d0 = self.document_data;
        let ghost u0 = self.user_data;
        let mut tail = tail;
        while tail.len() > 0
            invariant
                self.sessions == old(self).sessions,
                self.shared_data == old(self).shared_data,
                self.transaction_history@.len() + tail@.len() == h0.len() + t0.len(),
                tail@ == t0.take(tail@.len() as int),
                self.transaction_history@.take(h0.len() as int) == h0,
                h0.len() <= self.transaction_history@.len(),
                forall|j: int|
                    0 <= j < self.transaction_history@.len() - h0.len() ==> settled_as(
                        #[trigger] self.transaction_history@[h0.len() + j],
                        t0[t0.len() - 1 - j],
                    ),
                ({
                    let r = settled(self.document_data, self.user_data, tail@.reverse());
                    (r.0, r.1, self.transaction_history@.skip(h0.len() as int) + r.2)
                }) == settled(d0, u0, t0.reverse()),
            decreases tail.len(),
        {
            let ghost before = self.transaction_history@;
            let ghost tb = tail@;
            let ghost db = self.document_data;
            let ghost ub = self.user_data;
            let (e, again) = tail.pop().unwrap();
            proof {
                lemma_reverse_push(tail@, (e, again));
                assert(tb == tail@.push((e, again)));
                let rr = tail@.reverse();
                assert((seq![(e, again)] + rr).skip(1) =~= rr);
                assert((seq![(e, again)] + rr)[0] == (e, again));
            }
            let e = if again {
                self.apply_again(e)
            } else {
                e
            };
            self.transaction_history.push(e);
            assert(self.transaction_history@.take(h0.len() as int) =~= before.take(h0.len() as int));
            proof {
                let r = settled(self.document_data, self.user_data, tail@.reverse());
                assert(self.transaction_history@.skip(h0.len() as int) =~= before.skip(h0.len() as int).push(e));
                assert(self.transaction_history@.skip(h0.len() as int) + r.2 =~= before.skip(h0.len() as int) + (
                seq![e] + r.2));
            }
        }
        assert(tail@.reverse() =~= Seq::<(TransactionHistoryState<D, U>, bool)>::empty());
        assert(self.transaction_history@.skip(h0.len() as int) + Seq::<TransactionHistoryState<D, U>>::empty()
            =~= self.transaction_history@.skip(h0.len() as int));
    }

    /// Takes back the last `n` transactions applied by `session`: the
    /// applied or failed transactions of `session`, from the last one back,
    /// are marked as undone (the applied ones are taken back from their
    /// data). Transactions of other sessions that were applied on the same
    /// data after the earliest of them are taken back first and applied again
    /// afterwards, in order; one that no longer applies is marked as failed,
    /// and a failed one is tried again.
    pub fn undo(&mut self, session: SessionId, n: usize)
        ensures
            undo_result(old(self).transaction_history@, final(self).transaction_history@, session, n as nat),
            (final(self).transaction_history@, final(self).document_data, final(self).user_data) == undo_outcome(
                old(self).transaction_history@,
                old(self).document_data,
                old(self).user_data,
                session,
                n as nat,
            ),
            final(self).sessions == old(self).sessions,
            final(self).shared_data == old(self).shared_data,
    {
        let ghost h0 = self.transaction_history@;
        let ghost d0 = self.document_data;
        let ghost u0 = self.user_data;
        let len = self.transaction_history.len();
        let (ed, eu) = self.earliest_undos(session, n);
        let ghost taken = |i: int|
            h0[i].state is Applied && undo_mark(h0[i], session, i, ed as int, eu as int).0.state is Undone;
        let mut tail: Vec<(TransactionHistoryState<D, U>, bool)> = Vec::new();
        let mut left = n;
        while left > 0 && self.transaction_history.len() > 0
            invariant
                taken == (|i: int|
                    h0[i].state is Applied && undo_mark(h0[i], session, i, ed as int, eu as int).0.state is Undone),
                (self.document_data, self.user_data) == unwound(d0, u0, h0, taken, self.transaction_history@.len() as int),
                len == h0.len(),
                self.sessions == old(self).sessions,
                self.shared_data == old(self).shared_data,
                self.transaction_history@.len() <= len,
                self.transaction_history@ == h0.take(self.transaction_history@.len() as int),
                tail@.len() == len - self.transaction_history@.len(),
                undo_start(h0, session, len as nat, n as nat) == undo_start(
                    h0,
                    session,
                    self.transaction_history@.len(),
                    left as nat,
                ),
                ed == undo_earliest(h0, session, len as nat, n as nat, true),
                eu == undo_earliest(h0, session, len as nat, n as nat, false),
                forall|j: int|
                    self.transaction_history@.len() <= j < len ==> #[trigger] tail@[len - 1 - j] == undo_mark(
                        h0[j],
                        session,
                        j,
                        ed as int,
                        eu as int,
                    ),
            decreases self.transaction_history.len(),
        {
            let ghost k = self.transaction_history@.len();
            let e = self.transaction_history.pop().unwrap();
            let i = self.transaction_history.len();
            assert(e == h0[i as int]);
            let ghost db = self.document_data;
            let ghost ub = self.user_data;
            let earliest = match &e.state {
                TransactionState::Applied(AppliedTransaction::Document(_)) => ed,
                TransactionState::Undone(UndoneTransaction::Document(_)) => ed,
                TransactionState::Failed(UndoneTransaction::Document(_)) => ed,
                _ => eu,
            };
            let own = e.session == session;
            let marked = match &e.state {
                TransactionState::Undone(_) => (e, false),
                TransactionState::Failed(_) => {
                    if own {
                        left -= 1;
                        let TransactionHistoryState { session: s, name, state } = e;
                        let state = match state {
                            TransactionState::Failed(t) => TransactionState::Undone(t),
                            other => other,
                        };
                        (TransactionHistoryState { session: s, name, state }, false)
                    } else {
                        (e, i >= earliest)
                    }
                },
                TransactionState::Applied(_) => {
                    if own {
                        left -= 1;
                        (self.take_back(e), false)
                    } else if i > earliest {
                        (self.take_back(e), true)
                    } else {
                        (e, false)
                    }
                },
            };
            proof {
                let prev = unwound(d0, u0, h0, taken, i as int + 1);
                assert(prev == (db, ub));
                assert(marked == undo_mark(h0[i as int], session, i as int, ed as int, eu as int));
                assert(taken(i as int) == (h0[i as int].state is Applied && marked.0.state is Undone));
                if taken(i as int) {
                    assert((self.document_data, self.user_data) == taken_back(db, ub, h0[i as int]));
                } else {
                    assert((self.document_data, self.user_data) == (db, ub));
                }
                assert(unwound(d0, u0, h0, taken, i as int) == (if taken(i as int) {
                    taken_back(prev.0, prev.1, h0[i as int])
                } else {
                    prev
                }));
            }
            tail.push(marked);
            assert(self.transaction_history@ =~= h0.take(i as int));
        }
        let ghost c = self.transaction_history@.len();
        let ghost mid = self.transaction_history@;
        assert(undo_start(h0, session, len as nat, n as nat) == c);
        let ghost t = tail@;
        let ghost dm = self.document_data;
        let ghost um = self.user_data;
        self.settle_tail(tail);
        proof {
            let marks = Seq::new(
                (len - c) as nat,
                |j: int| undo_mark(h0[c + j], session, c + j, ed as int, eu as int),
            );
            assert forall|j: int| 0 <= j < len - c implies #[trigger] t.reverse()[j] == marks[j] by {
                assert(t.reverse()[j] == t[t.len() - 1 - j]);
                assert(t[len - 1 - (c + j)] == undo_mark(h0[c + j], session, c + j, ed as int, eu as int));
            }
            assert(t.reverse() =~= marks);
            assert(self.transaction_history@ =~= h0.take(c as int) + self.transaction_history@.skip(c as int));
            assert(taken =~= (|i: int|
                h0[i].state is Applied && undo_mark(
                    h0[i],
                    session,
                    i,
                    undo_earliest(h0, session, h0.len(), n as nat, true),
                    undo_earliest(h0, session, h0.len(), n as nat, false),
                ).0.state is Undone));
        }
        assert forall|i: int| 0 <= i < c implies self.transaction_history@[i] == h0[i] by {
            assert(self.transaction_history@.take(c as int)[i] == mid[i]);
        }
        assert forall|i: int| c <= i < len implies settled_as(
            self.transaction_history@[i],
            undo_mark(h0[i], session, i, ed as int, eu as int),
        ) by {
            let j = i - c;
            assert(self.transaction_history@[c + j] == self.transaction_history@[i]);
            assert(t[t.len() - 1 - j] == t[len - 1 - i]);
        }
    }
}

impl<
    D: ReversibleDocumentTransaction,
    U: ReversibleDocumentTransaction,
    Sh: DocumentTransaction,
> InternalDocumentModel<D, U, Sh> {
    /// The position of [`redo_start`] for `session`.
    fn redo_start_of(&self, session: SessionId) -> (r: usize)
        ensures
            r == redo_start(self.transaction_history@, session, self.transaction_history@.len()),
            r <= self.transaction_history@.len(),
    {
        let ghost h = self.transaction_history@;
        let mut k = self.transaction_history.len();
        while k > 0
            invariant
                h == self.transaction_history@,
                k <= h.len(),
                redo_start(h, session, h.len()) == redo_start(h, session, k as nat),
            decreases k,
        {
            let e = &self.transaction_history[k - 1];
            if e.session == session {
                match &e.state {
                    TransactionState::Undone(_) => {},
                    _ => {
                        return k;
                    },
                }
            }
            k -= 1;
        }
        0
    }

    /// For each position from `start` on, whether redo of `n` transactions
    /// by `session` applies it again.
    fn redo_plan(&self, session: SessionId, n: usize, start: usize) -> (r: Vec<bool>)
        requires
            start <= self.transaction_history@.len(),
        ensures
            r@.len() == self.transaction_history@.len() - start,
            forall|i: int|
                start <= i < self.transaction_history@.len() ==> #[trigger] r@[i - start] == redo_reapplies(
                    self.transaction_history@,
                    session,
                    n as nat,
                    start as int,
                    i,
                ),
    {
        let ghost h = self.transaction_history@;
        let len = self.transaction_history.len();
        let mut plan: Vec<bool> = Vec::new();
        let mut left = n;
        let mut doc_touched = false;
        let mut user_touched = false;
        let mut i = start;
        while i < len
            invariant
                h == self.transaction_history@,
                len == h.len(),
                start <= i <= len,
                plan@.len() == i - start,
                left == redo_left_at(h, session, n as nat, start as int, i as int),
                doc_touched == redo_touched_at(h, session, n as nat, start as int, i as int, true),
                user_touched == redo_touched_at(h, session, n as nat, start as int, i as int, false),
                forall|j: int|
                    start <= j < i ==> #[trigger] plan@[j - start] == redo_reapplies(
                        h,
                        session,
                        n as nat,
                        start as int,
                        j,
                    ),
            decreases len - i,
        {
            let e = &self.transaction_history[i];
            let own = e.session == session;
            let again = match &e.state {
                TransactionState::Undone(UndoneTransaction::Document(_)) => {
                    if own && left > 0 {
                        left -= 1;
                        doc_touched = true;
                        true
                    } else {
                        false
                    }
                },
                TransactionState::Undone(UndoneTransaction::User(_)) => {
                    if own && left > 0 {
                        left -= 1;
                        user_touched = true;
                        true
                    } else {
                        false
                    }
                },
                TransactionState::Applied(AppliedTransaction::Document(_)) => doc_touched,
                TransactionState::Failed(UndoneTransaction::Document(_)) => doc_touched,
                TransactionState::Applied(AppliedTransaction::User(_)) => user_touched,
                TransactionState::Failed(UndoneTransaction::User(_)) => user_touched,
            };
            plan.push(again);
            i += 1;
        }
        plan
    }

    /// Redoes the next `n` transactions undone by `session`: from its last
    /// applied or failed transaction on, its undone transactions are applied
    /// again in order, `n` of them at most (all there are, if fewer). The
    /// later transactions of other sessions on the same data as a redone one
    /// are taken back first and applied again after it; a failed one is
    /// tried again. A transaction that does not apply is marked as failed.
    pub fn redo(&mut self, session: SessionId, n: usize)
        ensures
            redo_result(old(self).transaction_history@, final(self).transaction_history@, session, n as nat),
            (final(self).transaction_history@, final(self).document_data, final(self).user_data) == redo_outcome(
                old(self).transaction_history@,
                old(self).document_data,
                old(self).user_data,
                session,
                n as nat,
            ),
            final(self).sessions == old(self).sessions,
            final(self).shared_data == old(self).shared_data,
    {
        let ghost h0 = self.transaction_history@;
        let ghost d0 = self.document_data;
        let ghost u0 = self.user_data;
        let len = self.transaction_history.len();
        let start = self.redo_start_of(session);
        let plan = self.redo_plan(session, n, start);
        let ghost taken = |i: int| h0[i].state is Applied && redo_reapplies(h0, session, n as nat, start as int, i);
        let mut tail: Vec<(TransactionHistoryState<D, U>, bool)> = Vec::new();
        while self.transaction_history.len() > start
            invariant
                taken == (|i: int| h0[i].state is Applied && redo_reapplies(h0, session, n as nat, start as int, i)),
                forall|i: int|
                    start <= i < len ==> #[trigger] plan@[i - start] == redo_reapplies(
                        h0,
                        session,
                        n as nat,
                        start as int,
                        i,
                    ),
                (self.document_data, self.user_data) == unwound(d0, u0, h0, taken, self.transaction_history@.len() as int),
                len == h0.len(),
                self.sessions == old(self).sessions,
                self.shared_data == old(self).shared_data,
                start <= self.transaction_history@.len() <= len,
                plan@.len() == len - start,
                self.transaction_history@ == h0.take(self.transaction_history@.len() as int),
                tail@.len() == len - self.transaction_history@.len(),
                forall|j: int|
                    self.transaction_history@.len() <= j < len ==> #[trigger] tail@[len - 1 - j] == redo_mark(
                        h0[j],
                        plan@[j - start],
                    ),
            decreases self.transaction_history.len(),
        {
            let e = self.transaction_history.pop().unwrap();
            let i = self.transaction_history.len();
            assert(e == h0[i as int]);
            let ghost db = self.document_data;
            let ghost ub = self.user_data;
            let again = plan[i - start];
            let marked = if again {
                match &e.state {
                    TransactionState::Applied(_) => (self.take_back(e), true),
                    TransactionState::Failed(_) => {
                        let TransactionHistoryState { session: s, name, state } = e;
                        let state = match state {
                            TransactionState::Failed(t) => TransactionState::Undone(t),
                            other => other,
                        };
                        (TransactionHistoryState { session: s, name, state }, true)
                    },
                    TransactionState::Undone(_) => (e, true),
                }
            } else {
                (e, false)
            };
            proof {
                let prev = unwound(d0, u0, h0, taken, i as int + 1);
                assert(prev == (db, ub));
                assert(plan@[i - start] == redo_reapplies(h0, session, n as nat, start as int, i as int));
                assert(unwound(d0, u0, h0, taken, i as int) == (if taken(i as int) {
                    taken_back(prev.0, prev.1, h0[i as int])
                } else {
                    prev
                }));
            }
            tail.push(marked);
            assert(self.transaction_history@ =~= h0.take(i as int));
        }
        let ghost mid = self.transaction_history@;
        let ghost t = tail@;
        self.settle_tail(tail);
        proof {
            let marks = Seq::new(
                (len - start) as nat,
                |j: int| redo_mark(h0[start + j], redo_reapplies(h0, session, n as nat, start as int, start + j)),
            );
            assert forall|j: int| 0 <= j < len - start implies #[trigger] t.reverse()[j] == marks[j] by {
                assert(t.reverse()[j] == t[t.len() - 1 - j]);
                assert(t[len - 1 - (start + j)] == redo_mark(h0[start + j], plan@[(start + j) - start]));
                assert(plan@[(start + j) - start] == redo_reapplies(h0, session, n as nat, start as int, start + j));
            }
            assert(t.reverse() =~= marks);
            assert(self.transaction_history@ =~= h0.take(start as int) + self.transaction_history@.skip(start as int));
        }
        assert forall|i: int| 0 <= i < start implies self.transaction_history@[i] == h0[i] by {
            assert(self.transaction_history@.take(start as int)[i] == mid[i]);
        }
        assert forall|i: int| start <= i < len implies settled_as(
            self.transaction_history@[i],
            redo_mark(h0[i], redo_reapplies(h0, session, n as nat, start as int, i)),
        ) by {
            let j = i - start;
            assert(self.transaction_history@[start + j] == self.transaction_history@[i]);
            assert(t[t.len() - 1 - j] == t[len - 1 - i]);
            assert(plan@[i - start] == redo_reapplies(h0, session, n as nat, start as int, i));
        }
    }
}

/// A transaction for one of the four data sections of a document.
#[derive(Debug, Clone, PartialEq)]
pub enum TransactionArgs<
    D: ReversibleDocumentTransaction,
    U: ReversibleDocumentTransaction,
    S: DocumentTransaction,
    Sh: DocumentTransaction,
> {
    Document(D::Args),
    User(U::Args),
    Session(S::Args),
    Shared(Sh::Args),
}

/// What a transaction on a section returned.
#[derive(Debug, Clone, PartialEq)]
pub enum TransactionOutput<
    D: ReversibleDocumentTransaction,
    U: ReversibleDocumentTransaction,
    S: DocumentTransaction,
    Sh: DocumentTransaction,
> {
    Document(D::Output),
    User(U::Output),
    Session(S::Output),
    Shared(Sh::Output),
}

/// Why a transaction on a section could not be applied.
#[derive(Debug, Clone, PartialEq)]
pub enum TransactionError<
    D: ReversibleDocumentTransaction,
    U: ReversibleDocumentTransaction,
    S: DocumentTransaction,
    Sh: DocumentTransaction,
> {
    Document(D::Error),
    User(U::Error),
    Session(S::Error),
    Shared(Sh::Error),
}

/// An editing session on a document: its identifier, and its own data,
/// which no other session sees.
pub struct Session<S: DocumentTransaction> {
    pub session_uuid: SessionId,
    pub session_data: S,
}

impl<S: DocumentTransaction + Default> Session<S> {
    /// Opens a session on `model`, with the default session data.
    pub fn open<D: ReversibleDocumentTransaction, U: ReversibleDocumentTransaction, Sh: DocumentTransaction + Default>(
        model: &mut InternalDocumentModel<D, U, Sh>,
    ) -> (r: Session<S>)
        ensures
            final(model).sessions@ == old(model).sessions@.push(r.session_uuid),
            final(model).shared_data is Some,
            old(model).shared_data is Some ==> final(model).shared_data == old(model).shared_data,
            final(model).transaction_history@ == old(model).transaction_history@,
            final(model).document_data == old(model).document_data,
            final(model).user_data == old(model).user_data,
    {
        let session_uuid = model.open_session();
        Session { session_uuid, session_data: S::default() }
    }
}

impl<S: DocumentTransaction> Session<S> {
    /// Applies a transaction: to the session's own data, or, through the
    /// document `model` that the session is open on, to the document data,
    /// the user data (both recorded in the history for this session) or the
    /// shared data.
    pub fn apply<D: ReversibleDocumentTransaction, U: ReversibleDocumentTransaction, Sh: DocumentTransaction>(
        &mut self,
        model: &mut InternalDocumentModel<D, U, Sh>,
        args: TransactionArgs<D, U, S, Sh>,
    ) -> (r: Result<TransactionOutput<D, U, S, Sh>, TransactionError<D, U, S, Sh>>)
        requires
            args is User ==> old(model).sessions@.contains(old(self).session_uuid),
            args is Shared ==> old(model).shared_data is Some,
        ensures
            final(self).session_uuid == old(self).session_uuid,
            final(model).sessions == old(model).sessions,
            old(model).shared_data is Some ==> final(model).shared_data is Some,
            !(args is Shared) ==> final(model).shared_data == old(model).shared_data,
            !(args is Document) ==> final(model).document_data == old(model).document_data,
            !(args is User) ==> final(model).user_data == old(model).user_data,
            !(args is Session) ==> final(self).session_data == old(self).session_data,
            match args {
                TransactionArgs::Document(a) => match r {
                    Ok(o) => {
                        &&& o matches TransactionOutput::Document(x) && D::apply_spec(old(model).document_data, a)
                            == Ok::<(D, D::Output), D::Error>((final(model).document_data, x))
                        &&& final(model).transaction_history@ == old(model).transaction_history@.push(
                            final(model).transaction_history@.last(),
                        )
                        &&& final(model).transaction_history@.last().session == old(self).session_uuid
                        &&& final(model).transaction_history@.last().state == (TransactionState::<D, U>::Applied(
                            AppliedTransaction::Document(
                                UndoUnit { undo_data: D::undo_data_spec(old(model).document_data, a), args: a },
                            ),
                        ))
                    },
                    Err(e) => {
                        &&& e matches TransactionError::Document(x) && D::apply_spec(old(model).document_data, a)
                            == Err::<(D, D::Output), D::Error>(x)
                        &&& final(model).document_data == old(model).document_data
                        &&& final(model).transaction_history@ == old(model).transaction_history@
                    },
                },
                TransactionArgs::User(a) => match r {
                    Ok(o) => {
                        &&& o matches TransactionOutput::User(x) && U::apply_spec(old(model).user_data, a) == Ok::<
                            (U, U::Output),
                            U::Error,
                        >((final(model).user_data, x))
                        &&& final(model).transaction_history@ == old(model).transaction_history@.push(
                            final(model).transaction_history@.last(),
                        )
                        &&& final(model).transaction_history@.last().session == old(self).session_uuid
                        &&& final(model).transaction_history@.last().state == (TransactionState::<D, U>::Applied(
                            AppliedTransaction::User(
                                UndoUnit { undo_data: U::undo_data_spec(old(model).user_data, a), args: a },
                            ),
                        ))
                    },
                    Err(e) => {
                        &&& e matches TransactionError::User(x) && U::apply_spec(old(model).user_data, a) == Err::<
                            (U, U::Output),
                            U::Error,
                        >(x)
                        &&& final(model).user_data == old(model).user_data
                        &&& final(model).transaction_history@ == old(model).transaction_history@
                    },
                },
                TransactionArgs::Session(a) => {
                    &&& final(model).transaction_history@ == old(model).transaction_history@
                    &&& match r {
                        Ok(o) => o matches TransactionOutput::Session(x) && S::apply_spec(old(self).session_data, a)
                            == Ok::<(S, S::Output), S::Error>((final(self).session_data, x)),
                        Err(e) => e matches TransactionError::Session(x) && S::apply_spec(old(self).session_data, a)
                            == Err::<(S, S::Output), S::Error>(x) && final(self).session_data == old(self).session_data,
                    }
                },
                TransactionArgs::Shared(a) => {
                    &&& final(model).transaction_history@ == old(model).transaction_history@
                    &&& match r {
                        Ok(o) => o matches TransactionOutput::Shared(x) && Sh::apply_spec(
                            old(model).shared_data->0,
                            a,
                        ) == Ok::<(Sh, Sh::Output), Sh::Error>((final(model).shared_data->0, x)),
                        Err(e) => e matches TransactionError::Shared(x) && Sh::apply_spec(
                            old(model).shared_data->0,
                            a,
                        ) == Err::<(Sh, Sh::Output), Sh::Error>(x) && final(model).shared_data == old(model).shared_data,
                    }
                },
            },
    {
        match args {
            TransactionArgs::Session(a) => match self.session_data.apply(&a) {
                Ok(o) => Ok(TransactionOutput::Session(o)),
                Err(e) => Err(TransactionError::Session(e)),
            },
            TransactionArgs::Document(a) => match model.apply_document(a, self.session_uuid) {
                Ok(o) => Ok(TransactionOutput::Document(o)),
                Err(e) => Err(TransactionError::Document(e)),
            },
            TransactionArgs::User(a) => match model.apply_user(a, self.session_uuid) {
                Ok(o) => Ok(TransactionOutput::User(o)),
                Err(e) => Err(TransactionError::User(e)),
            },
            TransactionArgs::Shared(a) => match model.apply_shared(&a, self.session_uuid) {
                Ok(o) => Ok(TransactionOutput::Shared(o)),
                Err(e) => Err(TransactionError::Shared(e)),
            },
        }
    }

    /// Undoes the last `n` transactions of this session on `model`
    /// ([`InternalDocumentModel::undo`]).
    pub fn undo<D: ReversibleDocumentTransaction, U: ReversibleDocumentTransaction, Sh: DocumentTransaction>(
        &self,
        model: &mut InternalDocumentModel<D, U, Sh>,
        n: usize,
    )
        ensures
            undo_result(old(model).transaction_history@, final(model).transaction_history@, self.session_uuid, n as nat),
            (final(model).transaction_history@, final(model).document_data, final(model).user_data) == undo_outcome(
                old(model).transaction_history@,
                old(model).document_data,
                old(model).user_data,
                self.session_uuid,
                n as nat,
            ),
            final(model).sessions == old(model).sessions,
            final(model).shared_data == old(model).shared_data,
    {
        model.undo(self.session_uuid, n);
    }

    /// Redoes the next `n` undone transactions of this session on `model`
    /// ([`InternalDocumentModel::redo`]).
    pub fn redo<D: ReversibleDocumentTransaction, U: ReversibleDocumentTransaction, Sh: DocumentTransaction>(
        &self,
        model: &mut InternalDocumentModel<D, U, Sh>,
        n: usize,
    )
        ensures
            redo_result(old(model).transaction_history@, final(model).transaction_history@, self.session_uuid, n as nat),
            (final(model).transaction_history@, final(model).document_data, final(model).user_data) == redo_outcome(
                old(model).transaction_history@,
                old(model).document_data,
                old(model).user_data,
                self.session_uuid,
                n as nat,
            ),
            final(model).sessions == old(model).sessions,
            final(model).shared_data == old(model).shared_data,
    {
        model.redo(self.session_uuid, n);
    }

    /// The names of this session's transactions on `model` and where undo
    /// and redo stand among them ([`InternalDocumentModel::undo_redo_list`]).
    pub fn undo_redo_list<D: ReversibleDocumentTransaction, U: ReversibleDocumentTransaction, Sh: DocumentTransaction>(
        &self,
        model: &InternalDocumentModel<D, U, Sh>,
    ) -> (r: (Vec<String>, usize))
        ensures
            r.0@ == session_names(model.transaction_history@, self.session_uuid),
            r.1 == session_names(
                model.transaction_history@.take(
                    redo_start(model.transaction_history@, self.session_uuid, model.transaction_history@.len()) as int,
                ),
                self.session_uuid,
            ).len(),
    {
        model.undo_redo_list(self.session_uuid)
    }

    /// Closes this session on `model` ([`InternalDocumentModel::close_session`]).
    pub fn close<D: ReversibleDocumentTransaction, U: ReversibleDocumentTransaction, Sh: DocumentTransaction>(
        self,
        model: &mut InternalDocumentModel<D, U, Sh>,
    )
        ensures
            final(model).sessions@ == old(model).sessions@.filter(|x: SessionId| x != self.session_uuid),
            final(model).shared_data == (if final(model).sessions@.len() == 0 {
                None
            } else {
                old(model).shared_data
            }),
            final(model).transaction_history@ == old(model).transaction_history@,
    {
        model.close_session(self.session_uuid);
    }
}

/// The data of a document as one session sees it, at one moment.
#[derive(Debug, Clone, PartialEq)]
pub struct Snapshot<D, U, S, Sh> {
    /// The document data.
    pub document: D,
    /// The user data.
    pub user: U,
    /// The session's own data.
    pub session: S,
    /// The data shared by the open sessions.
    pub shared: Sh,
}

impl<S: DocumentTransaction + Clone> Session<S> {
    /// Copies of the data this session sees on `model`: its document data,
    /// user data and shared data, and the session's own data.
    pub fn snapshot<
        D: ReversibleDocumentTransaction + Clone,
        U: ReversibleDocumentTransaction + Clone,
        Sh: DocumentTransaction + Clone,
    >(&self, model: &InternalDocumentModel<D, U, Sh>) -> (r: Snapshot<D, U, S, Sh>)
        requires
            model.shared_data is Some,
        ensures
            cloned(model.document_data, r.document),
            cloned(model.user_data, r.user),
            cloned(self.session_data, r.session),
            cloned(model.shared_data->0, r.shared),
    {
        let shared = match &model.shared_data {
            Some(sh) => sh.clone(),
            None => vstd::pervasive::unreached(),
        };
        Snapshot {
            document: model.document_data.clone(),
            user: model.user_data.clone(),
            session: self.session_data.clone(),
            shared,
        }
    }
}

/// How many transactions of session `s` before position `k` are applied or failed.
pub open spec fn active_count<D: ReversibleDocumentTransaction, U: ReversibleDocumentTransaction>(
    h: Seq<TransactionHistoryState<D, U>>,
    s: SessionId,
    k: nat,
) -> nat
    decreases k,
{
    if k == 0 {
        0
    } else if is_active_of(h[k - 1], s) {
        active_count(h, s, (k - 1) as nat) + 1
    } else {
        active_count(h, s, (k - 1) as nat)
    }
}

/// How many transactions of session `s` from position `start` to `i` are undone.
pub open spec fn undone_count<D: ReversibleDocumentTransaction, U: ReversibleDocumentTransaction>(
    h: Seq<TransactionHistoryState<D, U>>,
    s: SessionId,
    start: int,
    i: int,
) -> nat
    decreases i - start,
{
    if i <= start {
        0
    } else if is_undone_of(h[i - 1], s) {
        undone_count(h, s, start, i - 1) + 1
    } else {
        undone_count(h, s, start, i - 1)
    }
}

/// Undo keeps every transaction of the history in its place, with its
/// session, its name and its arguments; only where it stands changes.
pub proof fn lemma_undo_keeps_transactions<D: ReversibleDocumentTransaction, U: ReversibleDocumentTransaction>(
    old: Seq<TransactionHistoryState<D, U>>,
    new: Seq<TransactionHistoryState<D, U>>,
    s: SessionId,
    n: nat,
)
    requires
        undo_result(old, new, s, n),
    ensures
        new.len() == old.len(),
        forall|i: int|
            0 <= i < old.len() ==> (#[trigger] new[i]).session == old[i].session && new[i].name == old[i].name
                && transaction_of(new[i].state) == transaction_of(old[i].state),
{
    let c = undo_start(old, s, old.len(), n) as int;
    let ed = undo_earliest(old, s, old.len(), n, true);
    let eu = undo_earliest(old, s, old.len(), n, false);
    assert forall|i: int| 0 <= i < old.len() implies (#[trigger] new[i]).session == old[i].session && new[i].name
        == old[i].name && transaction_of(new[i].state) == transaction_of(old[i].state) by {
        if i >= c {
            assert(settled_as(new[i], undo_mark(old[i], s, i, ed, eu)));
        }
    }
}

/// Redo keeps every transaction of the history in its place, with its
/// session, its name and its arguments; only where it stands changes.
pub proof fn lemma_redo_keeps_transactions<D: ReversibleDocumentTransaction, U: ReversibleDocumentTransaction>(
    old: Seq<TransactionHistoryState<D, U>>,
    new: Seq<TransactionHistoryState<D, U>>,
    s: SessionId,
    n: nat,
)
    requires
        redo_result(old, new, s, n),
    ensures
        new.len() == old.len(),
        forall|i: int|
            0 <= i < old.len() ==> (#[trigger] new[i]).session == old[i].session && new[i].name == old[i].name
                && transaction_of(new[i].state) == transaction_of(old[i].state),
{
    let start = redo_start(old, s, old.len()) as int;
    assert forall|i: int| 0 <= i < old.len() implies (#[trigger] new[i]).session == old[i].session && new[i].name
        == old[i].name && transaction_of(new[i].state) == transaction_of(old[i].state) by {
        if i >= start {
            assert(settled_as(new[i], redo_mark(old[i], redo_reapplies(old, s, n, start, i))));
        }
    }
}

/// Undo by session `s` marks only transactions of `s` as undone, and leaves
/// every undone transaction as it was.
pub proof fn lemma_undo_only_own<D: ReversibleDocumentTransaction, U: ReversibleDocumentTransaction>(
    old: Seq<TransactionHistoryState<D, U>>,
    new: Seq<TransactionHistoryState<D, U>>,
    s: SessionId,
    n: nat,
)
    requires
        undo_result(old, new, s, n),
    ensures
        forall|i: int|
            0 <= i < old.len() && (#[trigger] new[i]).state is Undone && !(old[i].state is Undone) ==> old[i].session
                == s,
        forall|i: int| 0 <= i < old.len() && (#[trigger] old[i]).state is Undone ==> new[i] == old[i],
{
    let c = undo_start(old, s, old.len(), n) as int;
    let ed = undo_earliest(old, s, old.len(), n, true);
    let eu = undo_earliest(old, s, old.len(), n, false);
    assert forall|i: int| 0 <= i < old.len() && (#[trigger] new[i]).state is Undone && !(old[i].state is Undone) implies old[i].session == s by {
        if i >= c {
            assert(settled_as(new[i], undo_mark(old[i], s, i, ed, eu)));
        }
    }
    assert forall|i: int| 0 <= i < old.len() && (#[trigger] old[i]).state is Undone implies new[i] == old[i] by {
        if i >= c {
            assert(settled_as(new[i], undo_mark(old[i], s, i, ed, eu)));
        }
    }
}

proof fn lemma_no_active_when_none_counted<D: ReversibleDocumentTransaction, U: ReversibleDocumentTransaction>(
    h: Seq<TransactionHistoryState<D, U>>,
    s: SessionId,
    k: nat,
)
    requires
        k <= h.len(),
        active_count(h, s, k) == 0,
    ensures
        forall|i: int| 0 <= i < k ==> !is_active_of(#[trigger] h[i], s),
    decreases k,
{
    if k > 0 {
        lemma_no_active_when_none_counted(h, s, (k - 1) as nat);
    }
}

proof fn lemma_undo_start_covers<D: ReversibleDocumentTransaction, U: ReversibleDocumentTransaction>(
    h: Seq<TransactionHistoryState<D, U>>,
    s: SessionId,
    k: nat,
    left: nat,
)
    requires
        k <= h.len(),
        active_count(h, s, k) <= left,
    ensures
        forall|i: int| 0 <= i < undo_start(h, s, k, left) ==> !is_active_of(#[trigger] h[i], s),
    decreases k,
{
    if k == 0 {
    } else if left == 0 {
        lemma_no_active_when_none_counted(h, s, k);
    } else if is_active_of(h[k - 1], s) {
        lemma_undo_start_covers(h, s, (k - 1) as nat, (left - 1) as nat);
    } else {
        lemma_undo_start_covers(h, s, (k - 1) as nat, left);
    }
}

/// Undo by session `s` of at least as many transactions as `s` has applied
/// or failed leaves every transaction of `s` undone.
pub proof fn lemma_undo_all<D: ReversibleDocumentTransaction, U: ReversibleDocumentTransaction>(
    old: Seq<TransactionHistoryState<D, U>>,
    new: Seq<TransactionHistoryState<D, U>>,
    s: SessionId,
    n: nat,
)
    requires
        undo_result(old, new, s, n),
        active_count(old, s, old.len()) <= n,
    ensures
        forall|i: int| 0 <= i < new.len() && (#[trigger] new[i]).session == s ==> new[i].state is Undone,
{
    let c = undo_start(old, s, old.len(), n) as int;
    let ed = undo_earliest(old, s, old.len(), n, true);
    let eu = undo_earliest(old, s, old.len(), n, false);
    lemma_undo_start_covers(old, s, old.len(), n);
    assert forall|i: int| 0 <= i < new.len() && (#[trigger] new[i]).session == s implies new[i].state is Undone by {
        if i >= c {
            assert(settled_as(new[i], undo_mark(old[i], s, i, ed, eu)));
        } else {
            assert(!is_active_of(old[i], s));
        }
    }
}

proof fn lemma_redo_left<D: ReversibleDocumentTransaction, U: ReversibleDocumentTransaction>(
    h: Seq<TransactionHistoryState<D, U>>,
    s: SessionId,
    n: nat,
    start: int,
    i: int,
)
    requires
        undone_count(h, s, start, i) <= n,
    ensures
        redo_left_at(h, s, n, start, i) == n - undone_count(h, s, start, i),
    decreases i - start,
{
    if i > start {
        lemma_redo_left(h, s, n, start, i - 1);
    }
}

proof fn lemma_undone_count_grows<D: ReversibleDocumentTransaction, U: ReversibleDocumentTransaction>(
    h: Seq<TransactionHistoryState<D, U>>,
    s: SessionId,
    start: int,
    i: int,
    k: int,
)
    requires
        start <= i < k,
        is_undone_of(h[i], s),
    ensures
        undone_count(h, s, start, i) < undone_count(h, s, start, k),
    decreases k - i,
{
    if k > i + 1 {
        lemma_undone_count_grows(h, s, start, i, k - 1);
    }
}

/// Redo by session `s` of at least as many transactions as `s` has undone
/// after its last applied or failed one leaves no transaction of `s` undone
/// from there on.
pub proof fn lemma_redo_all<D: ReversibleDocumentTransaction, U: ReversibleDocumentTransaction>(
    old: Seq<TransactionHistoryState<D, U>>,
    new: Seq<TransactionHistoryState<D, U>>,
    s: SessionId,
    n: nat,
)
    requires
        redo_result(old, new, s, n),
        undone_count(old, s, redo_start(old, s, old.len()) as int, old.len() as int) <= n,
    ensures
        forall|i: int|
            redo_start(old, s, old.len()) <= i < new.len() && (#[trigger] new[i]).session == s ==> !(
            new[i].state is Undone),
{
    let start = redo_start(old, s, old.len()) as int;
    assert forall|i: int| start <= i < new.len() && (#[trigger] new[i]).session == s implies !(new[i].state is Undone) by {
        assert(settled_as(new[i], redo_mark(old[i], redo_reapplies(old, s, n, start, i))));
        if old[i].state is Undone {
            lemma_undone_count_grows(old, s, start, i, old.len() as int);
            lemma_redo_left(old, s, n, start, i);
        } else {
            lemma_redo_start_last(old, s, old.len(), i);
        }
    }
}

proof fn lemma_redo_start_last<D: ReversibleDocumentTransaction, U: ReversibleDocumentTransaction>(
    h: Seq<TransactionHistoryState<D, U>>,
    s: SessionId,
    k: nat,
    i: int,
)
    requires
        k <= h.len(),
        redo_start(h, s, k) <= i < k,
    ensures
        !is_active_of(h[i], s),
    decreases k,
{
    if k > 0 && !is_active_of(h[k - 1], s) && i < k - 1 {
        lemma_redo_start_last(h, s, (k - 1) as nat, i);
    }
}

proof fn lemma_undo_start_counts<D: ReversibleDocumentTransaction, U: ReversibleDocumentTransaction>(
    h: Seq<TransactionHistoryState<D, U>>,
    s: SessionId,
    k: nat,
    left: nat,
)
    requires
        k <= h.len(),
    ensures
        undo_start(h, s, k, left) <= k,
        active_count(h, s, k) - active_count(h, s, undo_start(h, s, k, left)) == if left <= active_count(h, s, k) {
            left as int
        } else {
            active_count(h, s, k) as int
        },
    decreases k,
{
    if k == 0 || left == 0 {
    } else if is_active_of(h[k - 1], s) {
        lemma_undo_start_counts(h, s, (k - 1) as nat, (left - 1) as nat);
    } else {
        lemma_undo_start_counts(h, s, (k - 1) as nat, left);
    }
}

proof fn lemma_active_count_same_prefix<D: ReversibleDocumentTransaction, U: ReversibleDocumentTransaction>(
    a: Seq<TransactionHistoryState<D, U>>,
    b: Seq<TransactionHistoryState<D, U>>,
    s: SessionId,
    k: nat,
)
    requires
        k <= a.len(),
        k <= b.len(),
        forall|i: int| 0 <= i < k ==> a[i] == b[i],
    ensures
        active_count(a, s, k) == active_count(b, s, k),
    decreases k,
{
    if k > 0 {
        lemma_active_count_same_prefix(a, b, s, (k - 1) as nat);
    }
}

proof fn lemma_active_count_flat<D: ReversibleDocumentTransaction, U: ReversibleDocumentTransaction>(
    h: Seq<TransactionHistoryState<D, U>>,
    s: SessionId,
    c: nat,
    k: nat,
)
    requires
        c <= k <= h.len(),
        forall|i: int| c <= i < k ==> !is_active_of(#[trigger] h[i], s),
    ensures
        active_count(h, s, k) == active_count(h, s, c),
    decreases k,
{
    if k > c {
        lemma_active_count_flat(h, s, c, (k - 1) as nat);
    }
}

/// Undo of `n` transactions by session `s` leaves `s` with `n` fewer applied
/// or failed transactions, or with none if it had at most `n`.
pub proof fn lemma_undo_count<D: ReversibleDocumentTransaction, U: ReversibleDocumentTransaction>(
    old: Seq<TransactionHistoryState<D, U>>,
    new: Seq<TransactionHistoryState<D, U>>,
    s: SessionId,
    n: nat,
)
    requires
        undo_result(old, new, s, n),
    ensures
        active_count(new, s, new.len()) == if n <= active_count(old, s, old.len()) {
            active_count(old, s, old.len()) - n
        } else {
            0
        },
{
    let c = undo_start(old, s, old.len(), n);
    let ed = undo_earliest(old, s, old.len(), n, true);
    let eu = undo_earliest(old, s, old.len(), n, false);
    lemma_undo_start_counts(old, s, old.len(), n);
    lemma_active_count_same_prefix(old, new, s, c);
    assert forall|i: int| c <= i < new.len() implies !is_active_of(#[trigger] new[i], s) by {
        assert(settled_as(new[i], undo_mark(old[i], s, i, ed, eu)));
    }
    lemma_active_count_flat(new, s, c, new.len());
}

proof fn lemma_redo_counts<D: ReversibleDocumentTransaction, U: ReversibleDocumentTransaction>(
    old: Seq<TransactionHistoryState<D, U>>,
    new: Seq<TransactionHistoryState<D, U>>,
    s: SessionId,
    n: nat,
    i: int,
)
    requires
        redo_result(old, new, s, n),
        redo_start(old, s, old.len()) <= i <= old.len(),
    ensures
        redo_left_at(old, s, n, redo_start(old, s, old.len()) as int, i) == n - (if n <= undone_count(
            old,
            s,
            redo_start(old, s, old.len()) as int,
            i,
        ) {
            n as int
        } else {
            undone_count(old, s, redo_start(old, s, old.len()) as int, i) as int
        }),
        undone_count(new, s, redo_start(old, s, old.len()) as int, i) == undone_count(
            old,
            s,
            redo_start(old, s, old.len()) as int,
            i,
        ) - (n - redo_left_at(old, s, n, redo_start(old, s, old.len()) as int, i)),
    decreases i,
{
    let start = redo_start(old, s, old.len()) as int;
    if i > start {
        lemma_redo_counts(old, new, s, n, i - 1);
        let j = i - 1;
        assert(settled_as(new[j], redo_mark(old[j], redo_reapplies(old, s, n, start, j))));
    }
}

/// Redo of `n` transactions by session `s` leaves `s` with `n` fewer undone
/// transactions after its last applied or failed one, or with none there if
/// it had at most `n`.
pub proof fn lemma_redo_count<D: ReversibleDocumentTransaction, U: ReversibleDocumentTransaction>(
    old: Seq<TransactionHistoryState<D, U>>,
    new: Seq<TransactionHistoryState<D, U>>,
    s: SessionId,
    n: nat,
)
    requires
        redo_result(old, new, s, n),
    ensures
        ({
            let start = redo_start(old, s, old.len()) as int;
            undone_count(new, s, start, new.len() as int) == if n <= undone_count(old, s, start, old.len() as int) {
                undone_count(old, s, start, old.len() as int) - n
            } else {
                0
            }
        }),
{
    lemma_redo_start_bound(old, s, old.len());
    lemma_redo_counts(old, new, s, n, old.len() as int);
}

proof fn lemma_redo_start_bound<D: ReversibleDocumentTransaction, U: ReversibleDocumentTransaction>(
    h: Seq<TransactionHistoryState<D, U>>,
    s: SessionId,
    k: nat,
)
    ensures
        redo_start(h, s, k) <= k,
    decreases k,
{
    if k > 0 {
        lemma_redo_start_bound(h, s, (k - 1) as nat);
    }
}

// ---------------------------------------------------------------------------
// Redo after undo
// ---------------------------------------------------------------------------

/// Taking back an applied transaction of `T` with the undo data it handed
/// out restores the data it was applied to.
pub open spec fn reversible<T: ReversibleDocumentTransaction>() -> bool {
    forall|x: T, a: T::Args|
        #[trigger] T::apply_spec(x, a) matches Ok((y, _)) ==> T::undo_spec(y, T::undo_data_spec(x, a)) == x
}

/// The document and user data reached by applying the transactions of
/// `tail`, in order, to `(d, u)`, when each of them applies and each entry
/// is session `s`'s applied transaction holding the undo data that applying
/// it handed out; `None` otherwise.
pub open spec fn applied_from<D: ReversibleDocumentTransaction, U: ReversibleDocumentTransaction>(
    d: D,
    u: U,
    tail: Seq<TransactionHistoryState<D, U>>,
    s: SessionId,
) -> Option<(D, U)>
    decreases tail.len(),
{
    if tail.len() == 0 {
        Some((d, u))
    } else {
        match applied_from(d, u, tail.drop_last(), s) {
            None => None,
            Some((d1, u1)) => {
                let e = tail.last();
                let (d2, u2, e2) = applied_again(d1, u1, e);
                if e.session == s && e.state is Applied && e2 == e {
                    Some((d2, u2))
                } else {
                    None
                }
            },
        }
    }
}

proof fn lemma_applied_from_prefix<D: ReversibleDocumentTransaction, U: ReversibleDocumentTransaction>(
    d: D,
    u: U,
    t: Seq<TransactionHistoryState<D, U>>,
    s: SessionId,
    j: int,
)
    requires
        0 <= j <= t.len(),
        applied_from(d, u, t, s) is Some,
    ensures
        applied_from(d, u, t.take(j), s) is Some,
    decreases t.len() - j,
{
    if j == t.len() {
        assert(t.take(j) =~= t);
    } else {
        lemma_applied_from_prefix(d, u, t, s, j + 1);
        assert(t.take(j + 1).drop_last() =~= t.take(j));
    }
}

/// One step of [`applied_from`]: the data after `j + 1` transactions.
proof fn lemma_applied_from_step<D: ReversibleDocumentTransaction, U: ReversibleDocumentTransaction>(
    d: D,
    u: U,
    t: Seq<TransactionHistoryState<D, U>>,
    s: SessionId,
    j: int,
)
    requires
        0 <= j < t.len(),
        applied_from(d, u, t, s) is Some,
    ensures
        applied_from(d, u, t.take(j), s) is Some,
        applied_from(d, u, t.take(j + 1), s) is Some,
        ({
            let st = applied_from(d, u, t.take(j), s)->0;
            let r = applied_again(st.0, st.1, t[j]);
            &&& applied_from(d, u, t.take(j + 1), s)->0 == (r.0, r.1)
            &&& r.2 == t[j]
            &&& t[j].session == s
            &&& t[j].state is Applied
        }),
{
    lemma_applied_from_prefix(d, u, t, s, j);
    lemma_applied_from_prefix(d, u, t, s, j + 1);
    assert(t.take(j + 1).drop_last() =~= t.take(j));
    assert(t.take(j + 1).last() == t[j]);
}

/// Taking back, from the end down to position `p`, every transaction from
/// `c` on of a history whose part from `c` on was applied to `(d0, u0)`,
/// gives the data after its first `p - c` transactions.
proof fn lemma_unwound_applied<D: ReversibleDocumentTransaction, U: ReversibleDocumentTransaction>(
    d0: D,
    u0: U,
    h: Seq<TransactionHistoryState<D, U>>,
    s: SessionId,
    taken: spec_fn(int) -> bool,
    c: int,
    p: int,
)
    requires
        reversible::<D>(),
        reversible::<U>(),
        0 <= c <= p <= h.len(),
        forall|i: int| c <= i < h.len() ==> #[trigger] taken(i),
        applied_from(d0, u0, h.skip(c), s) is Some,
    ensures
        applied_from(d0, u0, h.skip(c).take(p - c), s) is Some,
        unwound(
            (applied_from(d0, u0, h.skip(c), s)->0).0,
            (applied_from(d0, u0, h.skip(c), s)->0).1,
            h,
            taken,
            p,
        ) == applied_from(d0, u0, h.skip(c).take(p - c), s)->0,
    decreases h.len() - p,
{
    let t = h.skip(c);
    let fin = applied_from(d0, u0, t, s)->0;
    if p == h.len() {
        assert(t.take(p - c) =~= t);
    } else {
        lemma_unwound_applied(d0, u0, h, s, taken, c, p + 1);
        let j = p - c;
        lemma_applied_from_step(d0, u0, t, s, j);
        assert(t[j] == h[p]);
        assert(taken(p));
        let st = applied_from(d0, u0, t.take(j), s)->0;
        let x = transaction_of(h[p].state);
        match x {
            UndoneTransaction::Document(a) => {
                assert(D::apply_spec(st.0, a) is Ok);
            },
            UndoneTransaction::User(a) => {
                assert(U::apply_spec(st.1, a) is Ok);
            },
        }
    }
}

/// Nothing from position `p` on is taken: the data stays.
proof fn lemma_unwound_none<D: ReversibleDocumentTransaction, U: ReversibleDocumentTransaction>(
    d: D,
    u: U,
    h: Seq<TransactionHistoryState<D, U>>,
    taken: spec_fn(int) -> bool,
    p: int,
)
    requires
        0 <= p,
        forall|i: int| p <= i < h.len() ==> !#[trigger] taken(i),
    ensures
        unwound(d, u, h, taken, p) == (d, u),
    decreases h.len() - p,
{
    if p < h.len() {
        lemma_unwound_none(d, u, h, taken, p + 1);
        assert(!taken(p));
    }
}

/// Putting back transactions none of which is applied again leaves the
/// data and the transactions as they are.
proof fn lemma_settled_kept<D: ReversibleDocumentTransaction, U: ReversibleDocumentTransaction>(
    d: D,
    u: U,
    marks: Seq<(TransactionHistoryState<D, U>, bool)>,
)
    requires
        forall|j: int| 0 <= j < marks.len() ==> !(#[trigger] marks[j]).1,
    ensures
        settled(d, u, marks) == (d, u, Seq::new(marks.len(), |j: int| marks[j].0)),
    decreases marks.len(),
{
    if marks.len() > 0 {
        let rest = marks.skip(1);
        assert forall|j: int| 0 <= j < rest.len() implies !(#[trigger] rest[j]).1 by {
            assert(rest[j] == marks[j + 1]);
        }
        lemma_settled_kept(d, u, rest);
        assert(!marks[0].1);
        assert(seq![marks[0].0] + Seq::new(rest.len(), |j: int| rest[j].0) =~= Seq::new(
            marks.len(),
            |j: int| marks[j].0,
        ));
    }
}

/// Applying again, from the data after the first `j` transactions of `t`,
/// the rest of them, taken back: the data after all of them, and `t`'s
/// transactions from `j` on as they were.
proof fn lemma_settled_reapplied<D: ReversibleDocumentTransaction, U: ReversibleDocumentTransaction>(
    d0: D,
    u0: U,
    t: Seq<TransactionHistoryState<D, U>>,
    s: SessionId,
    j: int,
)
    requires
        0 <= j <= t.len(),
        applied_from(d0, u0, t, s) is Some,
    ensures
        applied_from(d0, u0, t.take(j), s) is Some,
        ({
            let st = applied_from(d0, u0, t.take(j), s)->0;
            let marks = Seq::new(t.len(), |i: int| (as_undone(t[i]), true)).skip(j);
            settled(st.0, st.1, marks) == (
                (applied_from(d0, u0, t, s)->0).0,
                (applied_from(d0, u0, t, s)->0).1,
                t.skip(j),
            )
        }),
    decreases t.len() - j,
{
    lemma_applied_from_prefix(d0, u0, t, s, j);
    let all = Seq::new(t.len(), |i: int| (as_undone(t[i]), true));
    let marks = all.skip(j);
    if j == t.len() {
        assert(t.take(j) =~= t);
        assert(marks.len() == 0);
        assert(t.skip(j) =~= Seq::<TransactionHistoryState<D, U>>::empty());
    } else {
        lemma_settled_reapplied(d0, u0, t, s, j + 1);
        lemma_applied_from_step(d0, u0, t, s, j);
        let st = applied_from(d0, u0, t.take(j), s)->0;
        assert(marks[0] == (as_undone(t[j]), true));
        assert(applied_again(st.0, st.1, as_undone(t[j])) == applied_again(st.0, st.1, t[j]));
        assert(marks.skip(1) =~= all.skip(j + 1));
        assert(seq![t[j]] + t.skip(j + 1) =~= t.skip(j));
    }
}

/// `undo_start` over transactions that are all applied ones of `s`.
proof fn lemma_undo_start_all_active<D: ReversibleDocumentTransaction, U: ReversibleDocumentTransaction>(
    h: Seq<TransactionHistoryState<D, U>>,
    s: SessionId,
    k: nat,
    left: nat,
)
    requires
        left <= k <= h.len(),
        forall|i: int| k - left <= i < k ==> is_active_of(#[trigger] h[i], s),
    ensures
        undo_start(h, s, k, left) == k - left,
    decreases left,
{
    if left > 0 {
        assert(is_active_of(h[k - 1], s));
        lemma_undo_start_all_active(h, s, (k - 1) as nat, (left - 1) as nat);
    }
}

/// `redo_start` when the transactions from `c` on are undone ones of `s`
/// and the one before `c` is active.
proof fn lemma_redo_start_at<D: ReversibleDocumentTransaction, U: ReversibleDocumentTransaction>(
    h: Seq<TransactionHistoryState<D, U>>,
    s: SessionId,
    c: nat,
    k: nat,
)
    requires
        c <= k <= h.len(),
        forall|i: int| c <= i < h.len() ==> is_undone_of(#[trigger] h[i], s),
        c > 0 ==> is_active_of(h[c - 1], s),
    ensures
        redo_start(h, s, k) == c,
    decreases k,
{
    if k > c {
        assert(is_undone_of(h[k - 1], s));
        lemma_redo_start_at(h, s, c, (k - 1) as nat);
    }
}

/// Redo of `n` from `c` over undone transactions of `s`: `n` less one
/// per position passed.
proof fn lemma_redo_left_all<D: ReversibleDocumentTransaction, U: ReversibleDocumentTransaction>(
    h: Seq<TransactionHistoryState<D, U>>,
    s: SessionId,
    n: nat,
    c: int,
    i: int,
)
    requires
        0 <= c <= i <= h.len(),
        i - c <= n,
        forall|j: int| c <= j < h.len() ==> is_undone_of(#[trigger] h[j], s),
    ensures
        redo_left_at(h, s, n, c, i) == n - (i - c),
    decreases i - c,
{
    if i > c {
        lemma_redo_left_all(h, s, n, c, i - 1);
        assert(is_undone_of(h[i - 1], s));
    }
}

/// Redo after undo restores the data: when the last `k` transactions of a
/// history are applied ones of session `s`, applied in order to `(d0, u0)`
/// and leading to `(d, u)`, the transaction before them (if any) is an
/// applied or failed one of `s`, and the transactions take back as they
/// state, then undo of `k` by `s` takes the data back to `(d0, u0)`, and
/// redo of `k` by `s` after it restores the history and the data `(d, u)`.
pub proof fn lemma_redo_after_undo<D: ReversibleDocumentTransaction, U: ReversibleDocumentTransaction>(
    h: Seq<TransactionHistoryState<D, U>>,
    d0: D,
    u0: U,
    d: D,
    u: U,
    s: SessionId,
    k: nat,
)
    requires
        reversible::<D>(),
        reversible::<U>(),
        k <= h.len(),
        forall|i: int| h.len() - k <= i < h.len() ==> (#[trigger] h[i]).session == s && h[i].state is Applied,
        k < h.len() ==> is_active_of(h[h.len() - k - 1], s),
        applied_from(d0, u0, h.skip(h.len() - k), s) == Some((d, u)),
    ensures
        undo_outcome(h, d, u, s, k).1 == d0,
        undo_outcome(h, d, u, s, k).2 == u0,
        ({
            let (h1, d1, u1) = undo_outcome(h, d, u, s, k);
            redo_outcome(h1, d1, u1, s, k) == (h, d, u)
        }),
{
    let len = h.len();
    let c = len - k;
    let t = h.skip(c);
    assert forall|i: int| len - k <= i < len implies is_active_of(#[trigger] h[i], s) by {}
    lemma_undo_start_all_active(h, s, len, k);
    let ed = undo_earliest(h, s, h.len(), k, true);
    let eu = undo_earliest(h, s, h.len(), k, false);
    let taken = |i: int| h[i].state is Applied && undo_mark(h[i], s, i, ed, eu).0.state is Undone;
    assert forall|i: int| c <= i < h.len() implies #[trigger] taken(i) by {}
    lemma_unwound_applied(d0, u0, h, s, taken, c, c);
    assert(t.take(0) =~= Seq::<TransactionHistoryState<D, U>>::empty());
    let marks = Seq::new((h.len() - c) as nat, |j: int| undo_mark(h[c + j], s, c + j, ed, eu));
    assert forall|j: int| 0 <= j < marks.len() implies !(#[trigger] marks[j]).1 by {}
    lemma_settled_kept(d0, u0, marks);
    let undone = Seq::new(marks.len(), |j: int| marks[j].0);
    let h1 = h.take(c) + undone;
    assert(undo_outcome(h, d, u, s, k) == (h1, d0, u0));

    // Redo of `k` from `c` on applies each undone transaction again.
    assert forall|i: int| c <= i < h1.len() implies is_undone_of(#[trigger] h1[i], s) by {
        assert(h1[i] == as_undone(h[i]));
    }
    if c > 0 {
        assert(h1[c - 1] == h[c - 1]);
    }
    lemma_redo_start_at(h1, s, c as nat, h1.len());
    assert forall|i: int| c <= i < h1.len() implies #[trigger] redo_reapplies(h1, s, k, c, i) by {
        lemma_redo_left_all(h1, s, k, c, i);
    }
    let taken2 = |i: int| h1[i].state is Applied && redo_reapplies(h1, s, k, c, i);
    assert forall|i: int| c <= i < h1.len() implies !#[trigger] taken2(i) by {
        assert(is_undone_of(h1[i], s));
    }
    lemma_unwound_none(d0, u0, h1, taken2, c);
    let marks2 = Seq::new((h1.len() - c) as nat, |j: int| redo_mark(h1[c + j], redo_reapplies(h1, s, k, c, c + j)));
    let all = Seq::new(t.len(), |i: int| (as_undone(t[i]), true));
    assert forall|j: int| 0 <= j < marks2.len() implies #[trigger] marks2[j] == all[j] by {
        assert(redo_reapplies(h1, s, k, c, c + j));
        assert(h1[c + j] == as_undone(h[c + j]));
        assert(t[j] == h[c + j]);
    }
    assert(marks2 =~= all);
    lemma_settled_reapplied(d0, u0, t, s, 0);
    assert(all.skip(0) =~= all);
    assert(t.skip(0) =~= t);
    assert(h1.take(c) =~= h.take(c));
    assert(h.take(c) + t =~= h);
}

/// Transactions on a [`NumberCell`] take back as they state.
pub proof fn lemma_number_cell_reversible()
    ensures
        reversible::<NumberCell>(),
{
}

} // verus!

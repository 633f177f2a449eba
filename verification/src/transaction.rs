//! Transactions that the application applies to its own objects (the
//! command pattern), and those of them that can be taken back.

use vstd::prelude::*;

verus! {

/// A transaction that can be applied to an object.
///
/// `apply` is expected to be pure (the same arguments on an equal object
/// give the same output and the same object) and to leave the object as it
/// was when it fails. Nothing is claimed of what it returns.
pub trait Transaction {
    /// The arguments of a transaction.
    type Args: Clone;
    /// Why a transaction could not be applied.
    type Error;
    /// What an applied transaction returns.
    type Output;

    /// Applies the transaction described by `args` to the object.
    fn apply(&mut self, args: Self::Args) -> Result<Self::Output, Self::Error>;
}

/// A transaction that can be taken back.
///
/// `undo` with the undo data of an `apply` is expected to restore the object
/// as it was before that `apply`. Nothing is claimed of what these methods
/// return.
pub trait ReversibleTransaction: Transaction {
    /// What is needed to take an applied transaction back.
    type UndoData;

    /// Applies the transaction and returns, besides its output, the data
    /// that takes it back.
    fn apply(&mut self, args: Self::Args) -> Result<(Self::Output, Self::UndoData), Self::Error>;

    /// Takes back the transaction whose undo data is `undo_data`.
    fn undo(&mut self, undo_data: Self::UndoData);
}

} // verus!

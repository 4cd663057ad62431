use vstd::prelude::*;

verus! {

/// Typed failures raised by tree construction, ledger insertion and
/// reconciliation.  Ambiguous states (an unresolved account type, a date
/// outside the ledger window) are surfaced to the caller instead of being
/// defaulted or ignored.
#[derive(Debug, PartialEq, Eq)]
pub enum AccountingError {
    /// A tag node was given a level below one.
    InvalidLevel { level: usize },
    /// A level-one tag node was constructed without a primary account type,
    /// or the ancestor walk ended on a node that carries none.
    MissingAccountType,
    /// A node that needs a parent was constructed without one, or with a
    /// handle that does not point into the tree.
    MissingParent,
    /// The ancestor walk for a tag node deeper than level one reached a
    /// parentless node before finding a level-one ancestor.
    NoLevelOneAncestor,
    /// A transaction entry names an account handle that is not in the tree.
    AccountNotInTree { journal_entry_id: usize },
    /// A transaction entry's account resolves to no primary account type.
    UnresolvedAccountType { journal_entry_id: usize, account_name: String },
    /// An accumulated account name matches no node in the tree.
    UnknownAccount { account_name: String },
    /// A journal entry's date lies outside the ledger's date window.
    DateOutOfRange { journal_entry_id: usize },
    /// A ledger was constructed with a from date later than its to date.
    InvalidDateWindow,
}

} // verus!

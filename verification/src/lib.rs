//! A double-entry accounting core: a hierarchical chart of accounts, name
//! lookup and post-order amount aggregation over it, a general ledger of
//! journal entries, and the reconciliation pass that folds ledger entries
//! into per-account totals and propagates them up the tree.

pub mod accounting_tree;
pub mod balance_sheet;
pub mod dates;
pub mod errors;
pub mod ledger;

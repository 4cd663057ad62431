use vstd::prelude::*;

use crate::accounting_tree::{
    agg_ok, dfs_find, in_i64, in_subtree, lemma_dfs_characterization, lemma_in_subtree_bounds,
    subtree_total, same_structure, AccountTree, AmountAggregator, PrimaryAccountType, TreeNode,
    ActionType, DFS,
};
use crate::dates::Timestamp;
use crate::errors::AccountingError;
use crate::ledger::{EntryType, JournalEntry, Ledger, TransactionEntry};
use vstd::string::StrSliceExecFns;

verus! {

/// The signed delta a transaction entry applies to its account: the entry's
/// amount, with the sign given by the account type's action on the entry's
/// side — an increase counts positive, a decrease negative.
pub open spec fn signed_delta(ty: PrimaryAccountType, e: TransactionEntry) -> int {
    match e.entry_type {
        EntryType::Credit => match ty.on_credit {
            ActionType::Increase => e.amount as int,
            ActionType::Decrease => -(e.amount as int),
        },
        EntryType::Debit => match ty.on_debit {
            ActionType::Increase => e.amount as int,
            ActionType::Decrease => -(e.amount as int),
        },
    }
}

/// The index of the first group, at or after `k`, keyed by `name` — exact,
/// case-sensitive — or `-1`.
pub open spec fn group_index(groups: Seq<(Seq<char>, int)>, name: Seq<char>, k: int) -> int
    decreases groups.len() - k,
{
    if !(0 <= k < groups.len()) {
        -1
    } else if groups[k].0 == name {
        k
    } else {
        group_index(groups, name, k + 1)
    }
}

/// Adds `delta` to the group keyed by `name`, creating the group — in
/// first-seen order — when it is absent.
pub open spec fn upsert(groups: Seq<(Seq<char>, int)>, name: Seq<char>, delta: int) -> Seq<
    (Seq<char>, int),
> {
    let i = group_index(groups, name, 0);
    if i == -1 {
        groups.push((name, delta))
    } else {
        groups.update(i, (name, groups[i].1 + delta))
    }
}

/// The outcome of the grouping pass, in specification terms: the accumulated
/// (account name, signed total) groups, or the first data-integrity failure.
pub enum CollectOutcome {
    Groups(Seq<(Seq<char>, int)>),
    BadAccount { journal_entry_id: usize },
    MissingType { journal_entry_id: usize, account_name: Seq<char> },
}

/// Folds one transaction entry into the groups: the entry's account must be
/// in the tree and resolve to a primary account type.
pub open spec fn collect_entry(
    nodes: Seq<TreeNode>,
    groups: Seq<(Seq<char>, int)>,
    journal_entry_id: usize,
    e: TransactionEntry,
) -> CollectOutcome {
    if !((e.account as int) < nodes.len()) {
        CollectOutcome::BadAccount { journal_entry_id }
    } else {
        match nodes[e.account as int].spec_account_type() {
            None => CollectOutcome::MissingType {
                journal_entry_id,
                account_name: nodes[e.account as int].spec_name(),
            },
            Some(ty) => CollectOutcome::Groups(
                upsert(groups, nodes[e.account as int].spec_name(), signed_delta(ty, e)),
            ),
        }
    }
}

/// The grouping pass after the first `j` journal entries, whole, plus the
/// first `t` transaction entries of journal entry `j`.
pub open spec fn collect_upto(
    nodes: Seq<TreeNode>,
    jes: Seq<JournalEntry>,
    j: int,
    t: int,
) -> CollectOutcome
    decreases j, t,
{
    if j < 0 || t < 0 {
        CollectOutcome::Groups(Seq::empty())
    } else if t == 0 {
        if j == 0 {
            CollectOutcome::Groups(Seq::empty())
        } else {
            collect_upto(nodes, jes, j - 1, jes[j - 1].transaction_entries@.len() as int)
        }
    } else {
        match collect_upto(nodes, jes, j, t - 1) {
            CollectOutcome::Groups(gs) => collect_entry(
                nodes,
                gs,
                jes[j].id,
                jes[j].transaction_entries@[t - 1],
            ),
            err => err,
        }
    }
}

/// The whole grouping pass over a ledger's journal entries.
pub open spec fn collect_all(nodes: Seq<TreeNode>, jes: Seq<JournalEntry>) -> CollectOutcome {
    collect_upto(nodes, jes, jes.len() as int, 0)
}

/// Every group total of a grouping outcome is representable as an `i64`.
pub open spec fn groups_fit(o: CollectOutcome) -> bool {
    match o {
        CollectOutcome::Groups(gs) => forall|i: int|
            0 <= i < gs.len() ==> in_i64((#[trigger] gs[i]).1),
        _ => true,
    }
}

/// Whether `(j, t)` indexes a state of the grouping pass over `jes`.
pub open spec fn collect_state(jes: Seq<JournalEntry>, j: int, t: int) -> bool {
    &&& 0 <= j <= jes.len()
    &&& 0 <= t
    &&& (if j < jes.len() {
        t <= jes[j].transaction_entries@.len()
    } else {
        t == 0
    })
}

/// Every intermediate state of the grouping pass keeps its totals
/// representable as `i64`.
pub open spec fn collect_fits(nodes: Seq<TreeNode>, jes: Seq<JournalEntry>) -> bool {
    forall|j: int, t: int|
        collect_state(jes, j, t) ==> groups_fit(#[trigger] collect_upto(nodes, jes, j, t))
}

/// The tree node each group resolves to by a root-first name search, or the
/// first group name with no match.
pub open spec fn locate_upto(nodes: Seq<TreeNode>, groups: Seq<(Seq<char>, int)>, k: int) -> Result<
    Seq<int>,
    Seq<char>,
>
    decreases k,
{
    if k <= 0 {
        Ok(Seq::empty())
    } else {
        match locate_upto(nodes, groups, k - 1) {
            Err(name) => Err(name),
            Ok(ts) => match dfs_find(nodes, 0, groups[k - 1].0) {
                None => Err(groups[k - 1].0),
                Some(n) => Ok(ts.push(n)),
            },
        }
    }
}

/// The arena after the first `k` group totals have been written over their
/// located nodes' amounts, in group order; a node located twice keeps the
/// last write.
pub open spec fn apply_groups(
    nodes: Seq<TreeNode>,
    groups: Seq<(Seq<char>, int)>,
    targets: Seq<int>,
    k: int,
) -> Seq<TreeNode>
    decreases k,
{
    if k <= 0 {
        nodes
    } else {
        let prev = apply_groups(nodes, groups, targets, k - 1);
        prev.update(targets[k - 1], prev[targets[k - 1]].with_amount(groups[k - 1].1 as i64))
    }
}

/// The arena a successful reconciliation writes before aggregating: group
/// totals placed over the located nodes.  `None` when reconciliation stops
/// on a data-integrity error.
pub open spec fn build_written(nodes: Seq<TreeNode>, jes: Seq<JournalEntry>) -> Option<
    Seq<TreeNode>,
> {
    match collect_all(nodes, jes) {
        CollectOutcome::Groups(gs) => match locate_upto(nodes, gs, gs.len() as int) {
            Ok(ts) => Some(apply_groups(nodes, gs, ts, gs.len() as int)),
            Err(_) => None,
        },
        _ => None,
    }
}

/// The sum of the amounts at the nodes that the first `k` names resolve to
/// by a root-first search; names that resolve to nothing contribute nothing
/// (the executable lookup rejects them before summing).
pub open spec fn accounts_sum(nodes: Seq<TreeNode>, qs: Seq<Seq<char>>, k: int) -> int
    decreases k,
{
    if k <= 0 {
        0
    } else {
        accounts_sum(nodes, qs, k - 1) + (match dfs_find(nodes, 0, qs[k - 1]) {
            Some(n) => nodes[n].spec_amount() as int,
            None => 0,
        })
    }
}

/// The index of the first name, at or after `k`, that no node of the tree
/// matches; `-1` when all resolve.
pub open spec fn first_unresolved(nodes: Seq<TreeNode>, qs: Seq<Seq<char>>, k: int) -> int
    decreases qs.len() - k,
{
    if !(0 <= k < qs.len()) {
        -1
    } else if dfs_find(nodes, 0, qs[k]) is None {
        k
    } else {
        first_unresolved(nodes, qs, k + 1)
    }
}

/// Every prefix of the account sums is representable as an `i64`.
pub open spec fn accounts_sums_fit(nodes: Seq<TreeNode>, qs: Seq<Seq<char>>) -> bool {
    forall|k: int| 0 <= k <= qs.len() ==> in_i64(#[trigger] accounts_sum(nodes, qs, k))
}

/// The views of a sequence of string slices.
pub open spec fn query_views(names: Seq<&str>) -> Seq<Seq<char>> {
    names.map_values(|s: &str| s@)
}

/// A source of ledgers, supplied by the caller: reads the journal entries
/// recorded inside a date window from wherever they are kept.
pub trait LedgerReader {
    fn read_by_date_range(&self, from_date: Timestamp, to_date: Timestamp) -> Ledger;
}

/// A structured view of a ledger over a chart of accounts: reconciliation
/// folds the ledger's transaction entries into per-account totals on the
/// tree and propagates them upward, and the query surface reads them back by
/// account name.
#[derive(Debug)]
pub struct BalanceSheet {
    pub id: usize,
    pub from_date: Timestamp,
    pub to_date: Timestamp,
    pub accounting_tree: AccountTree,
    pub ledger: Ledger,
}

impl BalanceSheet {
    pub fn new(
        id: usize,
        from_date: Timestamp,
        to_date: Timestamp,
        accounting_tree: AccountTree,
        ledger: Ledger,
    ) -> (r: BalanceSheet)
        ensures
            r.id == id,
            r.from_date == from_date,
            r.to_date == to_date,
            r.accounting_tree == accounting_tree,
            r.ledger == ledger,
    {
        BalanceSheet { id, from_date, to_date, accounting_tree, ledger }
    }

    /// Creates a balance sheet whose ledger is read from the given source
    /// for the sheet's date window.  Nothing is assumed about the ledger
    /// that comes back.
    pub fn new_from_reader<R: LedgerReader>(
        id: usize,
        from_date: Timestamp,
        to_date: Timestamp,
        accounting_tree: AccountTree,
        ledger_reader: R,
    ) -> (r: BalanceSheet)
        ensures
            r.id == id,
            r.from_date == from_date,
            r.to_date == to_date,
            r.accounting_tree == accounting_tree,
    {
        let ledger = ledger_reader.read_by_date_range(from_date, to_date);
        BalanceSheet { id, from_date, to_date, accounting_tree, ledger }
    }

    pub fn id(&self) -> (r: usize)
        ensures
            r == self.id,
    {
        self.id
    }

    pub fn set_id(&mut self, id: usize)
        ensures
            *final(self) == (BalanceSheet { id, ..*old(self) }),
    {
        self.id = id;
    }

    pub fn set_from_date(&mut self, from_date: Timestamp)
        ensures
            *final(self) == (BalanceSheet { from_date, ..*old(self) }),
    {
        self.from_date = from_date;
    }

    pub fn from_date(&self) -> (r: &Timestamp)
        ensures
            *r == self.from_date,
    {
        &self.from_date
    }

    pub fn set_to_date(&mut self, to_date: Timestamp)
        ensures
            *final(self) == (BalanceSheet { to_date, ..*old(self) }),
    {
        self.to_date = to_date;
    }

    pub fn to_date(&self) -> (r: &Timestamp)
        ensures
            *r == self.to_date,
    {
        &self.to_date
    }

    pub fn set_accounting_tree(&mut self, accounting_tree: AccountTree)
        ensures
            *final(self) == (BalanceSheet { accounting_tree, ..*old(self) }),
    {
        self.accounting_tree = accounting_tree;
    }

    pub fn accounting_tree(&self) -> (r: &AccountTree)
        ensures
            r == &self.accounting_tree,
    {
        &self.accounting_tree
    }

    pub fn set_ledger(&mut self, ledger: Ledger)
        ensures
            *final(self) == (BalanceSheet { ledger, ..*old(self) }),
    {
        self.ledger = ledger;
    }

    pub fn ledger(&self) -> (r: &Ledger)
        ensures
            r == &self.ledger,
    {
        &self.ledger
    }

    /// The sum of the amounts at the named accounts, resolved by root-first,
    /// case-insensitive name search.  A name that matches no node is
    /// reported instead — the first such name — and nothing is summed for
    /// it.
    pub fn accounts_total(&self, account_names: &Vec<&str>) -> (r: Result<i64, AccountingError>)
        requires
            self.accounting_tree.wf(),
            accounts_sums_fit(self.accounting_tree.nodes@, query_views(account_names@)),
        ensures
            ({
                let nodes = self.accounting_tree.nodes@;
                let qs = query_views(account_names@);
                let bad = first_unresolved(nodes, qs, 0);
                match r {
                    Ok(total) => bad == -1 && total as int == accounts_sum(
                        nodes,
                        qs,
                        qs.len() as int,
                    ),
                    Err(e) => bad >= 0 && (e matches AccountingError::UnknownAccount {
                        account_name,
                    } && account_name@ == qs[bad]),
                }
            }),
    {
        let ghost nodes = self.accounting_tree.nodes@;
        let ghost qs = query_views(account_names@);
        let mut total: i64 = 0;
        let mut k: usize = 0;
        while k < account_names.len()
            invariant
                self.accounting_tree.wf(),
                accounts_sums_fit(nodes, qs),
                nodes == self.accounting_tree.nodes@,
                qs == query_views(account_names@),
                qs.len() == account_names@.len(),
                k <= qs.len(),
                total as int == accounts_sum(nodes, qs, k as int),
                first_unresolved(nodes, qs, 0) == first_unresolved(nodes, qs, k as int),
            decreases qs.len() - k,
        {
            proof {
                assert(qs[k as int] == account_names@[k as int]@);
            }
            let mut dfs = DFS::new(self.accounting_tree.root());
            match dfs.traverse(&self.accounting_tree, account_names[k]) {
                None => {
                    return Err(
                        AccountingError::UnknownAccount {
                            account_name: account_names[k].to_owned(),
                        },
                    );
                },
                Some(node) => {
                    proof {
                        lemma_dfs_characterization(nodes, 0, qs[k as int]);
                        match dfs_find(nodes, 0, qs[k as int]) {
                            Some(t) => {
                                lemma_in_subtree_bounds(nodes, 0, t);
                            },
                            None => {},
                        }
                        assert(in_i64(accounts_sum(nodes, qs, k as int + 1)));
                    }
                    let amount = self.accounting_tree.amount(node);
                    total = total + amount;
                },
            }
            k += 1;
        }
        Ok(total)
    }

    /// Whether the named accounts on the two sides of the accounting
    /// equation carry equal totals — exact equality of the sums.  A name on
    /// either side that matches no node is reported instead, left side
    /// first.
    pub fn is_balanced(&self, lhs: &Vec<&str>, rhs: &Vec<&str>) -> (r: Result<
        bool,
        AccountingError,
    >)
        requires
            self.accounting_tree.wf(),
            accounts_sums_fit(self.accounting_tree.nodes@, query_views(lhs@)),
            accounts_sums_fit(self.accounting_tree.nodes@, query_views(rhs@)),
        ensures
            ({
                let nodes = self.accounting_tree.nodes@;
                let lqs = query_views(lhs@);
                let rqs = query_views(rhs@);
                let lbad = first_unresolved(nodes, lqs, 0);
                let rbad = first_unresolved(nodes, rqs, 0);
                match r {
                    Ok(b) => lbad == -1 && rbad == -1 && b == (accounts_sum(
                        nodes,
                        lqs,
                        lqs.len() as int,
                    ) == accounts_sum(nodes, rqs, rqs.len() as int)),
                    Err(e) => {
                        &&& (lbad >= 0 || rbad >= 0)
                        &&& (e matches AccountingError::UnknownAccount { account_name }
                            && account_name@ == (if lbad >= 0 {
                            lqs[lbad]
                        } else {
                            rqs[rbad]
                        }))
                    },
                }
            }),
    {
        let lhs_total = match self.accounts_total(lhs) {
            Ok(t) => t,
            Err(e) => {
                return Err(e);
            },
        };
        let rhs_total = match self.accounts_total(rhs) {
            Ok(t) => t,
            Err(e) => {
                return Err(e);
            },
        };
        Ok(lhs_total == rhs_total)
    }
}

/// The view of the accumulated groups held at run time.
pub open spec fn groups_view(s: Seq<(String, i64)>) -> Seq<(Seq<char>, int)> {
    s.map_values(|p: (String, i64)| (p.0@, p.1 as int))
}

/// A found group index points at a group keyed by the searched name.
proof fn lemma_group_index_key(groups: Seq<(Seq<char>, int)>, name: Seq<char>, k: int)
    requires
        group_index(groups, name, k) >= 0,
    ensures
        k <= group_index(groups, name, k) < groups.len(),
        groups[group_index(groups, name, k)].0 == name,
    decreases groups.len() - k,
{
    if 0 <= k < groups.len() && !(groups[k].0 == name) {
        lemma_group_index_key(groups, name, k + 1);
    }
}

/// One group total of a fitting outcome is representable as an `i64`.
proof fn lemma_groups_fit_at(o: CollectOutcome, i: int)
    requires
        groups_fit(o),
    ensures
        match o {
            CollectOutcome::Groups(gs) => 0 <= i < gs.len() ==> in_i64(gs[i].1),
            _ => true,
        },
{
}

/// Once the grouping pass hits a data-integrity error, every later state —
/// and so the whole pass — reports that same error.
proof fn lemma_collect_error_reach(
    nodes: Seq<TreeNode>,
    jes: Seq<JournalEntry>,
    j: int,
    t: int,
    j2: int,
    t2: int,
)
    requires
        collect_state(jes, j, t),
        !(collect_upto(nodes, jes, j, t) is Groups),
        collect_state(jes, j2, t2),
        j < j2 || (j == j2 && t <= t2),
    ensures
        collect_upto(nodes, jes, j2, t2) == collect_upto(nodes, jes, j, t),
    decreases j2, t2,
{
    if j2 == j && t2 == t {
    } else if t2 == 0 {
        let prev_len = jes[j2 - 1].transaction_entries@.len() as int;
        lemma_collect_error_reach(nodes, jes, j, t, j2 - 1, prev_len);
    } else {
        lemma_collect_error_reach(nodes, jes, j, t, j2, t2 - 1);
    }
}

/// A location pass that has failed stays failed.
proof fn lemma_locate_error_reach(
    nodes: Seq<TreeNode>,
    groups: Seq<(Seq<char>, int)>,
    k: int,
    m: int,
)
    requires
        locate_upto(nodes, groups, k) is Err,
        0 <= k <= m,
    ensures
        locate_upto(nodes, groups, m) == locate_upto(nodes, groups, k),
    decreases m,
{
    if m > k {
        lemma_locate_error_reach(nodes, groups, k, m - 1);
    }
}

/// Whether two strings hold the same characters.
fn str_eq(a: &str, b: &str) -> (r: bool)
    ensures
        r == (a@ == b@),
{
    let alen = a.unicode_len();
    let blen = b.unicode_len();
    if alen != blen {
        return false;
    }
    let mut i: usize = 0;
    while i < alen
        invariant
            alen == a@.len(),
            blen == b@.len(),
            alen == blen,
            i <= alen,
            forall|m: int| 0 <= m < i ==> a@[m] == #[trigger] b@[m],
        decreases alen - i,
    {
        if a.get_char(i) != b.get_char(i) {
            assert(a@[i as int] != b@[i as int]);
            return false;
        }
        i += 1;
    }
    proof {
        assert(a@ =~= b@);
    }
    true
}

/// The position of the group keyed by `name`, if one exists.
fn find_group(groups: &Vec<(String, i64)>, name: &str) -> (r: Option<usize>)
    ensures
        ({
            let gi = group_index(groups_view(groups@), name@, 0);
            match r {
                Some(i) => gi == i as int && i < groups@.len(),
                None => gi == -1,
            }
        }),
{
    let ghost gv = groups_view(groups@);
    let mut k: usize = 0;
    while k < groups.len()
        invariant
            gv == groups_view(groups@),
            gv.len() == groups@.len(),
            k <= groups@.len(),
            group_index(gv, name@, 0) == group_index(gv, name@, k as int),
        decreases groups@.len() - k,
    {
        proof {
            assert(gv[k as int].0 == groups@[k as int].0@);
        }
        if str_eq(groups[k].0.as_str(), name) {
            return Some(k);
        }
        k += 1;
    }
    None
}

impl BalanceSheet {
    /// Reconciles the ledger onto the chart of accounts: flattens every
    /// transaction entry of every journal entry, accumulates one signed
    /// total per account name under the credit/debit sign rule, overwrites
    /// each located leaf's amount with its total, and aggregates amounts up
    /// the whole tree.
    ///
    /// A build is a full recompute, not incremental.  It stops — leaving the
    /// tree untouched — on the first transaction entry whose account is not
    /// in the tree or resolves to no primary account type, and on the first
    /// accumulated account name that no node matches.
    pub fn build(&mut self) -> (r: Result<(), AccountingError>)
        requires
            old(self).accounting_tree.wf(),
            collect_fits(old(self).accounting_tree.nodes@, old(self).ledger.journal_entries@),
            (match build_written(
                old(self).accounting_tree.nodes@,
                old(self).ledger.journal_entries@,
            ) {
                Some(w) => agg_ok(w, 0),
                None => true,
            }),
        ensures
            final(self).id == old(self).id,
            final(self).from_date == old(self).from_date,
            final(self).to_date == old(self).to_date,
            final(self).ledger == old(self).ledger,
            final(self).accounting_tree.wf(),
            ({
                let nodes = old(self).accounting_tree.nodes@;
                let jes = old(self).ledger.journal_entries@;
                match collect_all(nodes, jes) {
                    CollectOutcome::BadAccount { journal_entry_id } => r == Err::<
                        (),
                        AccountingError,
                    >(AccountingError::AccountNotInTree { journal_entry_id })
                        && final(self).accounting_tree == old(self).accounting_tree,
                    CollectOutcome::MissingType { journal_entry_id, account_name } => {
                        &&& (match r {
                            Err(e) => e matches AccountingError::UnresolvedAccountType {
                                journal_entry_id: jid,
                                account_name: an,
                            } && jid == journal_entry_id && an@ == account_name,
                            Ok(_) => false,
                        })
                        &&& final(self).accounting_tree == old(self).accounting_tree
                    },
                    CollectOutcome::Groups(gs) => match locate_upto(nodes, gs, gs.len() as int) {
                        Err(name) => {
                            &&& (match r {
                                Err(e) => e matches AccountingError::UnknownAccount {
                                    account_name,
                                } && account_name@ == name,
                                Ok(_) => false,
                            })
                            &&& final(self).accounting_tree == old(self).accounting_tree
                        },
                        Ok(ts) => {
                            let w = apply_groups(nodes, gs, ts, gs.len() as int);
                            &&& r is Ok
                            &&& same_structure(nodes, final(self).accounting_tree.nodes@)
                            &&& (forall|n: int|
                                0 <= n < nodes.len()
                                    ==> #[trigger] final(self).accounting_tree.nodes@[n].spec_amount() as int == (
                                if in_subtree(nodes, 0, n) {
                                    subtree_total(w, n)
                                } else {
                                    w[n].spec_amount() as int
                                }))
                        },
                    },
                }
            }),
    {
        let ghost nodes0 = self.accounting_tree.nodes@;
        let ghost jes = self.ledger.journal_entries@;
        let total_nodes = self.accounting_tree.node_count();
        let n_journals = self.ledger.number_of_journal_entries();
        let mut groups: Vec<(String, i64)> = Vec::new();
        proof {
            assert(groups_view(groups@) =~= Seq::<(Seq<char>, int)>::empty());
        }
        let mut j: usize = 0;
        while j < n_journals
            invariant
                *self == *old(self),
                nodes0 == self.accounting_tree.nodes@,
                jes == self.ledger.journal_entries@,
                self.accounting_tree.wf(),
                collect_fits(nodes0, jes),
                total_nodes == nodes0.len(),
                n_journals == jes.len(),
                j <= jes.len(),
                collect_upto(nodes0, jes, j as int, 0) == CollectOutcome::Groups(
                    groups_view(groups@),
                ),
            decreases jes.len() - j,
        {
            let n_entries = self.ledger.journal_entries[j].transaction_entries.len();
            let mut t: usize = 0;
            while t < n_entries
                invariant
                    *self == *old(self),
                    nodes0 == self.accounting_tree.nodes@,
                    jes == self.ledger.journal_entries@,
                    self.accounting_tree.wf(),
                    collect_fits(nodes0, jes),
                    total_nodes == nodes0.len(),
                    n_journals == jes.len(),
                    j < jes.len(),
                    n_entries == jes[j as int].transaction_entries@.len(),
                    t <= n_entries,
                    collect_upto(nodes0, jes, j as int, t as int) == CollectOutcome::Groups(
                        groups_view(groups@),
                    ),
                decreases n_entries - t,
            {
                let ghost gv_cur = groups_view(groups@);
                let ghost entry = jes[j as int].transaction_entries@[t as int];
                let je_id = self.ledger.journal_entries[j].id;
                let account = self.ledger.journal_entries[j].transaction_entries[t].account;
                let amount = self.ledger.journal_entries[j].transaction_entries[t].amount;
                let is_credit = match self.ledger.journal_entries[j].transaction_entries[t]
                    .entry_type {
                    EntryType::Credit => true,
                    EntryType::Debit => false,
                };
                proof {
                    assert(collect_state(jes, j as int, t as int + 1));
                    assert(collect_upto(nodes0, jes, j as int, t as int + 1) == collect_entry(
                        nodes0,
                        gv_cur,
                        jes[j as int].id,
                        entry,
                    ));
                }
                if account >= total_nodes {
                    proof {
                        lemma_collect_error_reach(
                            nodes0,
                            jes,
                            j as int,
                            t as int + 1,
                            jes.len() as int,
                            0,
                        );
                    }
                    return Err(AccountingError::AccountNotInTree { journal_entry_id: je_id });
                }
                let action: ActionType = match self.accounting_tree.account_type(account) {
                    None => {
                        proof {
                            lemma_collect_error_reach(
                                nodes0,
                                jes,
                                j as int,
                                t as int + 1,
                                jes.len() as int,
                                0,
                            );
                        }
                        return Err(
                            AccountingError::UnresolvedAccountType {
                                journal_entry_id: je_id,
                                account_name: self.accounting_tree.name(account).to_owned(),
                            },
                        );
                    },
                    Some(ty) => {
                        if is_credit {
                            *ty.on_credit()
                        } else {
                            *ty.on_debit()
                        }
                    },
                };
                let delta_pos = match action {
                    ActionType::Increase => true,
                    ActionType::Decrease => false,
                };
                let ghost ty_spec = nodes0[account as int].spec_account_type()->0;
                let ghost delta = signed_delta(ty_spec, entry);
                let ghost new_gv = upsert(gv_cur, nodes0[account as int].spec_name(), delta);
                proof {
                    assert(delta == (if delta_pos {
                        amount as int
                    } else {
                        -(amount as int)
                    }));
                    assert(collect_upto(nodes0, jes, j as int, t as int + 1)
                        == CollectOutcome::Groups(new_gv));
                    assert(groups_fit(CollectOutcome::Groups(new_gv)));
                }
                let acc_name = self.accounting_tree.name(account);
                match find_group(&groups, acc_name) {
                    None => {
                        proof {
                            assert(new_gv == gv_cur.push(
                                (nodes0[account as int].spec_name(), delta),
                            ));
                            assert(new_gv[gv_cur.len() as int].1 == delta);
                            lemma_groups_fit_at(
                                CollectOutcome::Groups(new_gv),
                                gv_cur.len() as int,
                            );
                            assert(in_i64(delta));
                        }
                        let v: i64 = if delta_pos {
                            amount
                        } else {
                            -amount
                        };
                        let key = acc_name.to_owned();
                        groups.push((key, v));
                        proof {
                            assert(groups_view(groups@) =~= new_gv);
                        }
                    },
                    Some(idx) => {
                        proof {
                            lemma_group_index_key(
                                gv_cur,
                                nodes0[account as int].spec_name(),
                                0,
                            );
                            assert(gv_cur[idx as int].0 == nodes0[account as int].spec_name());
                            assert(new_gv == gv_cur.update(
                                idx as int,
                                (gv_cur[idx as int].0, gv_cur[idx as int].1 + delta),
                            ));
                            assert(new_gv[idx as int].1 == gv_cur[idx as int].1 + delta);
                            lemma_groups_fit_at(CollectOutcome::Groups(new_gv), idx as int);
                            assert(in_i64(gv_cur[idx as int].1 + delta));
                            assert(gv_cur[idx as int].1 == groups@[idx as int].1 as int);
                        }
                        let g = &mut groups[idx];
                        if delta_pos {
                            g.1 = g.1 + amount;
                        } else {
                            g.1 = g.1 - amount;
                        }
                        proof {
                            assert(groups_view(groups@) =~= new_gv);
                        }
                    },
                }
                t += 1;
            }
            j += 1;
            proof {
                assert(collect_upto(nodes0, jes, j as int, 0) == collect_upto(
                    nodes0,
                    jes,
                    j as int - 1,
                    n_entries as int,
                ));
            }
        }
        let ghost gv = groups_view(groups@);
        proof {
            assert(collect_all(nodes0, jes) == CollectOutcome::Groups(gv));
        }
        // Locate every accumulated account name before writing anything, so
        // that a failed reconciliation leaves the tree untouched.
        let mut targets: Vec<usize> = Vec::new();
        let mut k: usize = 0;
        proof {
            assert(targets@.map_values(|u: usize| u as int) =~= Seq::<int>::empty());
        }
        while k < groups.len()
            invariant
                *self == *old(self),
                nodes0 == self.accounting_tree.nodes@,
                jes == self.ledger.journal_entries@,
                self.accounting_tree.wf(),
                collect_all(nodes0, jes) == CollectOutcome::Groups(gv),
                gv == groups_view(groups@),
                gv.len() == groups@.len(),
                k <= groups@.len(),
                targets@.len() == k,
                locate_upto(nodes0, gv, k as int) == Ok::<Seq<int>, Seq<char>>(
                    targets@.map_values(|u: usize| u as int),
                ),
                forall|m: int|
                    0 <= m < targets@.len() ==> (#[trigger] targets@[m] as int) < nodes0.len(),
            decreases groups@.len() - k,
        {
            proof {
                assert(gv[k as int].0 == groups@[k as int].0@);
            }
            let mut dfs = DFS::new(self.accounting_tree.root());
            match dfs.traverse(&self.accounting_tree, groups[k].0.as_str()) {
                None => {
                    proof {
                        lemma_locate_error_reach(nodes0, gv, k as int + 1, gv.len() as int);
                    }
                    return Err(
                        AccountingError::UnknownAccount { account_name: groups[k].0.clone() },
                    );
                },
                Some(node) => {
                    proof {
                        lemma_dfs_characterization(nodes0, 0, gv[k as int].0);
                        match dfs_find(nodes0, 0, gv[k as int].0) {
                            Some(f) => {
                                lemma_in_subtree_bounds(nodes0, 0, f);
                            },
                            None => {},
                        }
                    }
                    let ghost prev_targets = targets@;
                    targets.push(node);
                    proof {
                        assert(targets@.map_values(|u: usize| u as int) =~= prev_targets.map_values(
                            |u: usize| u as int,
                        ).push(node as int));
                    }
                },
            }
            k += 1;
        }
        let ghost tv = targets@.map_values(|u: usize| u as int);
        proof {
            assert(locate_upto(nodes0, gv, gv.len() as int) == Ok::<Seq<int>, Seq<char>>(tv));
            assert(tv.len() == gv.len());
        }
        // Write each accumulated total over its located node: an overwrite,
        // not an addition — a build is a full recompute.
        let mut k2: usize = 0;
        while k2 < groups.len()
            invariant
                self.id == old(self).id,
                self.from_date == old(self).from_date,
                self.to_date == old(self).to_date,
                self.ledger == old(self).ledger,
                self.accounting_tree.wf(),
                nodes0 == old(self).accounting_tree.nodes@,
                gv == groups_view(groups@),
                tv == targets@.map_values(|u: usize| u as int),
                gv.len() == groups@.len(),
                tv.len() == targets@.len(),
                targets@.len() == groups@.len(),
                k2 <= groups@.len(),
                forall|m: int| 0 <= m < tv.len() ==> 0 <= #[trigger] tv[m] < nodes0.len(),
                self.accounting_tree.nodes@ == apply_groups(nodes0, gv, tv, k2 as int),
                same_structure(nodes0, self.accounting_tree.nodes@),
            decreases groups@.len() - k2,
        {
            let tgt = targets[k2];
            let amt = groups[k2].1;
            proof {
                assert(tv[k2 as int] == targets@[k2 as int] as int);
                assert(gv[k2 as int].1 == groups@[k2 as int].1 as int);
                assert((tgt as int) < self.accounting_tree.nodes@.len());
            }
            let ghost pre = self.accounting_tree.nodes@;
            self.accounting_tree.set_amount(tgt, amt);
            proof {
                assert(apply_groups(nodes0, gv, tv, k2 as int + 1) == pre.update(
                    tv[k2 as int],
                    pre[tv[k2 as int]].with_amount(gv[k2 as int].1 as i64),
                ));
                assert(gv[k2 as int].1 as i64 == amt);
                assert(self.accounting_tree.nodes@ == apply_groups(
                    nodes0,
                    gv,
                    tv,
                    k2 as int + 1,
                ));
                crate::accounting_tree::lemma_same_structure_trans(
                    nodes0,
                    pre,
                    self.accounting_tree.nodes@,
                );
            }
            k2 += 1;
        }
        let ghost w = apply_groups(nodes0, gv, tv, gv.len() as int);
        proof {
            assert(self.accounting_tree.nodes@ == w);
            assert(build_written(nodes0, jes) == Some(w));
            assert(agg_ok(w, 0));
            assert(self.accounting_tree.nodes@.len() == nodes0.len());
            assert(nodes0.len() >= 1);
        }
        // Propagate the written leaf totals up through every ancestor.
        let mut aggregator = AmountAggregator::new(self.accounting_tree.root());
        aggregator.aggregate(&mut self.accounting_tree);
        proof {
            crate::accounting_tree::lemma_same_structure_trans(
                nodes0,
                w,
                self.accounting_tree.nodes@,
            );
            crate::accounting_tree::lemma_same_structure_children_eq(nodes0, w);
            assert forall|n: int|
                0 <= n < nodes0.len() implies #[trigger] self.accounting_tree.nodes@[n].spec_amount()
                as int == (if in_subtree(nodes0, 0, n) {
                subtree_total(w, n)
            } else {
                w[n].spec_amount() as int
            }) by {
                crate::accounting_tree::lemma_in_subtree_children_eq(nodes0, w, 0, n);
            }
        }
        Ok(())
    }
}

} // verus!

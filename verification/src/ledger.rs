use vstd::prelude::*;

use crate::dates::Timestamp;
use crate::errors::AccountingError;
use vstd::string::StrSliceExecFns;

verus! {

/// Which side of an account a transaction entry touches.
#[derive(Debug, Clone, Copy, PartialEq, Eq, Structural)]
pub enum EntryType {
    Credit,
    Debit,
}

/// A single row of a journal entry: an amount moved on one side of one
/// account.  The account is the handle of a terminal node in an accounting
/// tree.  Amounts are kept in whole currency units and are non-negative; the
/// entry type says which way they move the account.
#[derive(Debug)]
pub struct TransactionEntry {
    pub account: usize,
    pub amount: i64,
    pub entry_type: EntryType,
    pub date_of_entry: Timestamp,
    pub description: String,
}

impl TransactionEntry {
    pub fn new(
        account: usize,
        amount: i64,
        entry_type: EntryType,
        date_of_entry: Timestamp,
        description: &str,
    ) -> (r: TransactionEntry)
        requires
            amount >= 0,
        ensures
            r.account == account,
            r.amount == amount,
            r.entry_type == entry_type,
            r.date_of_entry == date_of_entry,
            r.description@ == description@,
    {
        TransactionEntry {
            account,
            amount,
            entry_type,
            date_of_entry,
            description: description.to_owned(),
        }
    }

    /// The handle of the account this entry moves.
    pub fn account(&self) -> (r: usize)
        ensures
            r == self.account,
    {
        self.account
    }

    pub fn set_account(&mut self, account: usize)
        ensures
            *final(self) == (TransactionEntry { account, ..*old(self) }),
    {
        self.account = account;
    }

    pub fn amount(&self) -> (r: i64)
        ensures
            r == self.amount,
    {
        self.amount
    }

    pub fn set_amount(&mut self, amount: i64)
        requires
            amount >= 0,
        ensures
            *final(self) == (TransactionEntry { amount, ..*old(self) }),
    {
        self.amount = amount;
    }

    pub fn entry_type(&self) -> (r: &EntryType)
        ensures
            *r == self.entry_type,
    {
        &self.entry_type
    }

    pub fn set_entry_type(&mut self, entry_type: EntryType)
        ensures
            *final(self) == (TransactionEntry { entry_type, ..*old(self) }),
    {
        self.entry_type = entry_type;
    }

    pub fn date_of_entry(&self) -> (r: &Timestamp)
        ensures
            *r == self.date_of_entry,
    {
        &self.date_of_entry
    }

    pub fn set_date_of_entry(&mut self, date_of_entry: Timestamp)
        ensures
            *final(self) == (TransactionEntry { date_of_entry, ..*old(self) }),
    {
        self.date_of_entry = date_of_entry;
    }

    pub fn description(&self) -> (r: &str)
        ensures
            r@ == self.description@,
    {
        self.description.as_str()
    }

    pub fn set_description(&mut self, description: &str)
        ensures
            final(self).description@ == description@,
            final(self).account == old(self).account,
            final(self).amount == old(self).amount,
            final(self).entry_type == old(self).entry_type,
            final(self).date_of_entry == old(self).date_of_entry,
    {
        self.description = description.to_owned();
    }
}

/// The sum of the amounts of the credit entries among the first `k`.
pub open spec fn credit_total(entries: Seq<TransactionEntry>, k: int) -> int
    decreases k,
{
    if k <= 0 {
        0
    } else {
        credit_total(entries, k - 1) + (if entries[k - 1].entry_type is Credit {
            entries[k - 1].amount as int
        } else {
            0
        })
    }
}

/// The sum of the amounts of the debit entries among the first `k`.
pub open spec fn debit_total(entries: Seq<TransactionEntry>, k: int) -> int
    decreases k,
{
    if k <= 0 {
        0
    } else {
        debit_total(entries, k - 1) + (if entries[k - 1].entry_type is Debit {
            entries[k - 1].amount as int
        } else {
            0
        })
    }
}

/// Every prefix sum of credit amounts is representable as an `i64`.
pub open spec fn credit_totals_fit(entries: Seq<TransactionEntry>) -> bool {
    forall|k: int| 0 <= k <= entries.len() ==> crate::accounting_tree::in_i64(#[trigger] credit_total(entries, k))
}

/// Every prefix sum of debit amounts is representable as an `i64`.
pub open spec fn debit_totals_fit(entries: Seq<TransactionEntry>) -> bool {
    forall|k: int| 0 <= k <= entries.len() ==> crate::accounting_tree::in_i64(#[trigger] debit_total(entries, k))
}

/// A set of transaction entries recorded together.  The credit entries are
/// expected to balance the debit entries; [`JournalEntry::validate`] reports
/// whether they do, and an unbalanced entry stays representable.
#[derive(Debug)]
pub struct JournalEntry {
    pub id: usize,
    pub transaction_entries: Vec<TransactionEntry>,
    pub date_of_entry: Timestamp,
    pub description: String,
}

impl JournalEntry {
    pub fn new(id: usize, date_of_entry: Timestamp, description: &str) -> (r: JournalEntry)
        ensures
            r.id == id,
            r.date_of_entry == date_of_entry,
            r.description@ == description@,
            r.transaction_entries@ == Seq::<TransactionEntry>::empty(),
    {
        JournalEntry {
            id,
            transaction_entries: Vec::new(),
            date_of_entry,
            description: description.to_owned(),
        }
    }

    pub fn set_id(&mut self, id: usize)
        ensures
            final(self).id == id,
            final(self).date_of_entry == old(self).date_of_entry,
            final(self).description == old(self).description,
            final(self).transaction_entries == old(self).transaction_entries,
    {
        self.id = id;
    }

    pub fn set_date_of_entry(&mut self, date_of_entry: Timestamp)
        ensures
            final(self).date_of_entry == date_of_entry,
            final(self).id == old(self).id,
            final(self).description == old(self).description,
            final(self).transaction_entries == old(self).transaction_entries,
    {
        self.date_of_entry = date_of_entry;
    }

    pub fn set_description(&mut self, description: String)
        ensures
            final(self).description == description,
            final(self).id == old(self).id,
            final(self).date_of_entry == old(self).date_of_entry,
            final(self).transaction_entries == old(self).transaction_entries,
    {
        self.description = description;
    }

    pub fn add_transaction_entry(&mut self, transaction_entry: TransactionEntry)
        ensures
            final(self).transaction_entries@ == old(self).transaction_entries@.push(
                transaction_entry,
            ),
            final(self).id == old(self).id,
            final(self).date_of_entry == old(self).date_of_entry,
            final(self).description == old(self).description,
    {
        self.transaction_entries.push(transaction_entry);
    }

    pub fn id(&self) -> (r: usize)
        ensures
            r == self.id,
    {
        self.id
    }

    pub fn date_of_entry(&self) -> (r: Timestamp)
        ensures
            r == self.date_of_entry,
    {
        self.date_of_entry
    }

    pub fn description(&self) -> (r: &str)
        ensures
            r@ == self.description@,
    {
        self.description.as_str()
    }

    pub fn transaction_entries(&self) -> (r: &Vec<TransactionEntry>)
        ensures
            r == &self.transaction_entries,
    {
        &self.transaction_entries
    }

    pub fn number_of_transaction_entries(&self) -> (r: usize)
        ensures
            r == self.transaction_entries@.len(),
    {
        self.transaction_entries.len()
    }

    /// The total credited amount of this entry.
    pub fn total_credit(&self) -> (r: i64)
        requires
            credit_totals_fit(self.transaction_entries@),
        ensures
            r as int == credit_total(
                self.transaction_entries@,
                self.transaction_entries@.len() as int,
            ),
    {
        let entries = &self.transaction_entries;
        let mut total: i64 = 0;
        let mut k: usize = 0;
        while k < entries.len()
            invariant
                credit_totals_fit(entries@),
                k <= entries@.len(),
                total as int == credit_total(entries@, k as int),
            decreases entries@.len() - k,
        {
            proof {
                assert(crate::accounting_tree::in_i64(credit_total(entries@, k as int + 1)));
            }
            match entries[k].entry_type {
                EntryType::Credit => {
                    total = total + entries[k].amount;
                },
                EntryType::Debit => {},
            }
            k += 1;
        }
        total
    }

    /// The total debited amount of this entry.
    pub fn total_debit(&self) -> (r: i64)
        requires
            debit_totals_fit(self.transaction_entries@),
        ensures
            r as int == debit_total(
                self.transaction_entries@,
                self.transaction_entries@.len() as int,
            ),
    {
        let entries = &self.transaction_entries;
        let mut total: i64 = 0;
        let mut k: usize = 0;
        while k < entries.len()
            invariant
                debit_totals_fit(entries@),
                k <= entries@.len(),
                total as int == debit_total(entries@, k as int),
            decreases entries@.len() - k,
        {
            proof {
                assert(crate::accounting_tree::in_i64(debit_total(entries@, k as int + 1)));
            }
            match entries[k].entry_type {
                EntryType::Debit => {
                    total = total + entries[k].amount;
                },
                EntryType::Credit => {},
            }
            k += 1;
        }
        total
    }

    /// Whether the entry balances: its total credit equals its total debit,
    /// and only then.
    pub fn validate(&self) -> (r: bool)
        requires
            credit_totals_fit(self.transaction_entries@),
            debit_totals_fit(self.transaction_entries@),
        ensures
            r == (credit_total(self.transaction_entries@, self.transaction_entries@.len() as int)
                == debit_total(self.transaction_entries@, self.transaction_entries@.len() as int)),
    {
        let credits = self.total_credit();
        let debits = self.total_debit();
        debits == credits
    }
}

/// Appending one entry leaves the totals of the existing prefix unchanged.
pub proof fn lemma_totals_push_prefix(entries: Seq<TransactionEntry>, e: TransactionEntry, k: int)
    requires
        0 <= k <= entries.len(),
    ensures
        credit_total(entries.push(e), k) == credit_total(entries, k),
        debit_total(entries.push(e), k) == debit_total(entries, k),
    decreases k,
{
    if k > 0 {
        lemma_totals_push_prefix(entries, e, k - 1);
    }
}

/// Adding a single unmatched debit to a balanced journal entry makes it
/// unbalanced, and the debit/credit difference equals the injected amount
/// exactly; symmetrically for an unmatched credit.
pub proof fn lemma_unmatched_entry_unbalances(entries: Seq<TransactionEntry>, e: TransactionEntry)
    requires
        credit_total(entries, entries.len() as int) == debit_total(entries, entries.len() as int),
    ensures
        e.entry_type is Debit ==> {
            let all = entries.push(e);
            &&& debit_total(all, all.len() as int) - credit_total(all, all.len() as int)
                == e.amount as int
            &&& (credit_total(all, all.len() as int) == debit_total(all, all.len() as int))
                <==> e.amount == 0
        },
        e.entry_type is Credit ==> {
            let all = entries.push(e);
            &&& credit_total(all, all.len() as int) - debit_total(all, all.len() as int)
                == e.amount as int
            &&& (credit_total(all, all.len() as int) == debit_total(all, all.len() as int))
                <==> e.amount == 0
        },
{
    lemma_totals_push_prefix(entries, e, entries.len() as int);
    let all = entries.push(e);
    assert(all[all.len() as int - 1] == e);
    assert(credit_total(all, all.len() as int) == credit_total(all, all.len() as int - 1) + (
    if e.entry_type is Credit {
        e.amount as int
    } else {
        0
    }));
    assert(debit_total(all, all.len() as int) == debit_total(all, all.len() as int - 1) + (
    if e.entry_type is Debit {
        e.amount as int
    } else {
        0
    }));
}

/// Whether every journal entry of `s` is dated inside `[from, to]`.
pub open spec fn all_in_window(from: Timestamp, to: Timestamp, s: Seq<JournalEntry>) -> bool {
    forall|m: int|
        0 <= m < s.len() ==> from.spec_le(#[trigger] s[m].date_of_entry)
            && s[m].date_of_entry.spec_le(to)
}

/// The index of the first journal entry of `s`, at or after `k`, dated
/// outside `[from, to]`; `-1` when there is none.
pub open spec fn first_out_of_window(
    from: Timestamp,
    to: Timestamp,
    s: Seq<JournalEntry>,
    k: int,
) -> int
    decreases s.len() - k,
{
    if !(0 <= k < s.len()) {
        -1
    } else if !(from.spec_le(s[k].date_of_entry) && s[k].date_of_entry.spec_le(to)) {
        k
    } else {
        first_out_of_window(from, to, s, k + 1)
    }
}

/// The index of the first journal entry of `s`, at or after `k`, with the
/// given id; `-1` when there is none.
pub open spec fn first_with_id(s: Seq<JournalEntry>, id: usize, k: int) -> int
    decreases s.len() - k,
{
    if !(0 <= k < s.len()) {
        -1
    } else if s[k].id == id {
        k
    } else {
        first_with_id(s, id, k + 1)
    }
}

/// A general ledger: an ordered collection of journal entries scoped to the
/// date window `[from_date, to_date]`.  Insertions reject entries dated
/// outside the window before mutating any state; bulk insertions are
/// all-or-nothing.
#[derive(Debug)]
pub struct Ledger {
    pub id: usize,
    pub from_date: Timestamp,
    pub to_date: Timestamp,
    pub journal_entries: Vec<JournalEntry>,
}

impl Ledger {
    /// Whether a date falls inside this ledger's window, both ends included.
    pub open spec fn spec_in_window(&self, d: Timestamp) -> bool {
        self.from_date.spec_le(d) && d.spec_le(self.to_date)
    }

    /// Creates an empty ledger for the given date window.  A window whose
    /// from date lies after its to date is refused.
    pub fn new(id: usize, from_date: Timestamp, to_date: Timestamp) -> (r: Result<
        Ledger,
        AccountingError,
    >)
        ensures
            match r {
                Ok(l) => {
                    &&& from_date.spec_le(to_date)
                    &&& l.id == id
                    &&& l.from_date == from_date
                    &&& l.to_date == to_date
                    &&& l.journal_entries@ == Seq::<JournalEntry>::empty()
                },
                Err(e) => !from_date.spec_le(to_date) && e
                    == AccountingError::InvalidDateWindow,
            },
    {
        if !from_date.le(&to_date) {
            return Err(AccountingError::InvalidDateWindow);
        }
        Ok(Ledger { id, from_date, to_date, journal_entries: Vec::new() })
    }

    pub fn id(&self) -> (r: usize)
        ensures
            r == self.id,
    {
        self.id
    }

    pub fn set_id(&mut self, id: usize)
        ensures
            final(self).id == id,
            final(self).from_date == old(self).from_date,
            final(self).to_date == old(self).to_date,
            final(self).journal_entries == old(self).journal_entries,
    {
        self.id = id;
    }

    pub fn set_from_date(&mut self, from_date: Timestamp)
        ensures
            final(self).from_date == from_date,
            final(self).id == old(self).id,
            final(self).to_date == old(self).to_date,
            final(self).journal_entries == old(self).journal_entries,
    {
        self.from_date = from_date;
    }

    pub fn from_date(&self) -> (r: &Timestamp)
        ensures
            *r == self.from_date,
    {
        &self.from_date
    }

    pub fn set_to_date(&mut self, to_date: Timestamp)
        ensures
            final(self).to_date == to_date,
            final(self).id == old(self).id,
            final(self).from_date == old(self).from_date,
            final(self).journal_entries == old(self).journal_entries,
    {
        self.to_date = to_date;
    }

    pub fn to_date(&self) -> (r: &Timestamp)
        ensures
            *r == self.to_date,
    {
        &self.to_date
    }

    /// Whether a journal entry's date is in sync with the ledger's window.
    fn validate_journal_entry_dates(&self, journal_entry: &JournalEntry) -> (r: bool)
        ensures
            r == self.spec_in_window(journal_entry.date_of_entry),
    {
        self.from_date.le(&journal_entry.date_of_entry) && journal_entry.date_of_entry.le(
            &self.to_date,
        )
    }

    /// Appends a single journal entry.  An entry dated outside the window is
    /// rejected and the ledger is left unchanged.
    pub fn add_journal_entry(&mut self, journal_entry: JournalEntry) -> (r: Result<
        (),
        AccountingError,
    >)
        ensures
            old(self).spec_in_window(journal_entry.date_of_entry) ==> r is Ok
                && final(self).journal_entries@ == old(self).journal_entries@.push(journal_entry),
            !old(self).spec_in_window(journal_entry.date_of_entry) ==> r == Err::<
                (),
                AccountingError,
            >(AccountingError::DateOutOfRange { journal_entry_id: journal_entry.id })
                && *final(self) == *old(self),
            final(self).id == old(self).id,
            final(self).from_date == old(self).from_date,
            final(self).to_date == old(self).to_date,
    {
        if !self.validate_journal_entry_dates(&journal_entry) {
            return Err(AccountingError::DateOutOfRange { journal_entry_id: journal_entry.id });
        }
        self.journal_entries.push(journal_entry);
        Ok(())
    }

    /// Appends several journal entries, draining the given vector.  All the
    /// entries' dates are validated before any is appended: when one is out
    /// of the window, the first such entry is reported and neither the
    /// ledger nor the vector changes.
    pub fn add_journal_entries(&mut self, journal_entries: &mut Vec<JournalEntry>) -> (r: Result<
        (),
        AccountingError,
    >)
        ensures
            final(self).id == old(self).id,
            final(self).from_date == old(self).from_date,
            final(self).to_date == old(self).to_date,
            ({
                let bad = first_out_of_window(
                    old(self).from_date,
                    old(self).to_date,
                    old(journal_entries)@,
                    0,
                );
                if bad == -1 {
                    &&& r is Ok
                    &&& final(self).journal_entries@ == old(self).journal_entries@ + old(
                        journal_entries,
                    )@
                    &&& final(journal_entries)@ == Seq::<JournalEntry>::empty()
                } else {
                    &&& r == Err::<(), AccountingError>(
                        AccountingError::DateOutOfRange {
                            journal_entry_id: old(journal_entries)@[bad].id,
                        },
                    )
                    &&& *final(self) == *old(self)
                    &&& final(journal_entries)@ == old(journal_entries)@
                }
            }),
    {
        let ghost s = journal_entries@;
        let mut m: usize = 0;
        while m < journal_entries.len()
            invariant
                *self == *old(self),
                journal_entries@ == s,
                m <= s.len(),
                first_out_of_window(self.from_date, self.to_date, s, 0) == first_out_of_window(
                    self.from_date,
                    self.to_date,
                    s,
                    m as int,
                ),
            decreases s.len() - m,
        {
            if !self.validate_journal_entry_dates(&journal_entries[m]) {
                return Err(AccountingError::DateOutOfRange {
                    journal_entry_id: journal_entries[m].id(),
                });
            }
            m += 1;
        }
        self.journal_entries.append(journal_entries);
        Ok(())
    }

    /// Replaces all journal entries with the given ones.  All the new
    /// entries' dates are validated first: when one is out of the window,
    /// the first such entry is reported and the ledger keeps its old
    /// entries.
    pub fn set_journal_entries(&mut self, journal_entries: Vec<JournalEntry>) -> (r: Result<
        (),
        AccountingError,
    >)
        ensures
            final(self).id == old(self).id,
            final(self).from_date == old(self).from_date,
            final(self).to_date == old(self).to_date,
            ({
                let bad = first_out_of_window(
                    old(self).from_date,
                    old(self).to_date,
                    journal_entries@,
                    0,
                );
                if bad == -1 {
                    r is Ok && final(self).journal_entries@ == journal_entries@
                } else {
                    r == Err::<(), AccountingError>(
                        AccountingError::DateOutOfRange {
                            journal_entry_id: journal_entries@[bad].id,
                        },
                    ) && *final(self) == *old(self)
                }
            }),
    {
        let ghost s = journal_entries@;
        let mut m: usize = 0;
        while m < journal_entries.len()
            invariant
                *self == *old(self),
                journal_entries@ == s,
                m <= s.len(),
                first_out_of_window(self.from_date, self.to_date, s, 0) == first_out_of_window(
                    self.from_date,
                    self.to_date,
                    s,
                    m as int,
                ),
            decreases s.len() - m,
        {
            if !self.validate_journal_entry_dates(&journal_entries[m]) {
                return Err(AccountingError::DateOutOfRange {
                    journal_entry_id: journal_entries[m].id(),
                });
            }
            m += 1;
        }
        self.journal_entries = journal_entries;
        Ok(())
    }

    /// Removes every journal entry with the given id; removing an id that is
    /// not present leaves the ledger as it is.
    pub fn remove_journal_entry(&mut self, id: usize)
        ensures
            final(self).journal_entries@ == old(self).journal_entries@.filter(
                |j: JournalEntry| j.id != id,
            ),
            final(self).id == old(self).id,
            final(self).from_date == old(self).from_date,
            final(self).to_date == old(self).to_date,
    {
        let ghost s = self.journal_entries@;
        let mut kept: Vec<JournalEntry> = Vec::new();
        proof {
            assert(s.take(0) =~= Seq::<JournalEntry>::empty());
            lemma_filter_empty(|j: JournalEntry| j.id != id);
        }
        while self.journal_entries.len() > 0
            invariant
                self.journal_entries@.len() <= s.len(),
                self.journal_entries@ == s.skip(s.len() - self.journal_entries@.len()),
                kept@ == s.take(s.len() - self.journal_entries@.len()).filter(
                    |j: JournalEntry| j.id != id,
                ),
                self.id == old(self).id,
                self.from_date == old(self).from_date,
                self.to_date == old(self).to_date,
            decreases self.journal_entries@.len(),
        {
            let ghost p = s.len() - self.journal_entries@.len();
            let je = self.journal_entries.remove(0);
            proof {
                assert(je == s[p]);
                assert(self.journal_entries@ =~= s.skip(p + 1));
                assert(s.take(p + 1) =~= s.take(p).push(s[p]));
                lemma_filter_push(s.take(p), |j: JournalEntry| j.id != id, s[p]);
            }
            if je.id() != id {
                kept.push(je);
            }
        }
        proof {
            assert(s.take(s.len() as int) =~= s);
        }
        self.journal_entries = kept;
    }

    /// Removes all journal entries; the ledger's id and window stay.
    pub fn remove_all_journal_entries(&mut self)
        ensures
            final(self).journal_entries@ == Seq::<JournalEntry>::empty(),
            final(self).id == old(self).id,
            final(self).from_date == old(self).from_date,
            final(self).to_date == old(self).to_date,
    {
        self.journal_entries.clear();
    }

    /// Clears the journal entries and resets the id to zero; the date window
    /// is preserved.
    pub fn reset(&mut self)
        ensures
            final(self).journal_entries@ == Seq::<JournalEntry>::empty(),
            final(self).id == 0,
            final(self).from_date == old(self).from_date,
            final(self).to_date == old(self).to_date,
    {
        self.set_id(0);
        self.remove_all_journal_entries();
    }

    pub fn journal_entries(&self) -> (r: &Vec<JournalEntry>)
        ensures
            r == &self.journal_entries,
    {
        &self.journal_entries
    }

    /// The first journal entry with the given id, if any.
    pub fn get_journal_entry_by_id(&self, id: usize) -> (r: Option<&JournalEntry>)
        ensures
            ({
                let f = first_with_id(self.journal_entries@, id, 0);
                match r {
                    Some(je) => f >= 0 && *je == self.journal_entries@[f],
                    None => f == -1,
                }
            }),
    {
        let mut k: usize = 0;
        while k < self.journal_entries.len()
            invariant
                k <= self.journal_entries@.len(),
                first_with_id(self.journal_entries@, id, 0) == first_with_id(
                    self.journal_entries@,
                    id,
                    k as int,
                ),
            decreases self.journal_entries@.len() - k,
        {
            if self.journal_entries[k].id == id {
                return Some(&self.journal_entries[k]);
            }
            k += 1;
        }
        None
    }

    /// All journal entries dated exactly on the given date.
    pub fn get_journal_entries_by_date(&self, date_of_entry: Timestamp) -> (r: Vec<&JournalEntry>)
        ensures
            r@.map_values(|je: &JournalEntry| *je) == self.journal_entries@.filter(
                |j: JournalEntry| j.date_of_entry == date_of_entry,
            ),
    {
        let mut found: Vec<&JournalEntry> = Vec::new();
        let mut k: usize = 0;
        proof {
            assert(self.journal_entries@.take(0) =~= Seq::<JournalEntry>::empty());
            lemma_filter_empty(|j: JournalEntry| j.date_of_entry == date_of_entry);
            assert(found@.map_values(|je: &JournalEntry| *je) =~= Seq::<JournalEntry>::empty());
        }
        while k < self.journal_entries.len()
            invariant
                k <= self.journal_entries@.len(),
                found@.map_values(|je: &JournalEntry| *je) == self.journal_entries@.take(
                    k as int,
                ).filter(|j: JournalEntry| j.date_of_entry == date_of_entry),
            decreases self.journal_entries@.len() - k,
        {
            let ghost prev = found@;
            proof {
                assert(self.journal_entries@.take(k as int + 1) =~= self.journal_entries@.take(
                    k as int,
                ).push(self.journal_entries@[k as int]));
                lemma_filter_push(
                    self.journal_entries@.take(k as int),
                    |j: JournalEntry| j.date_of_entry == date_of_entry,
                    self.journal_entries@[k as int],
                );
            }
            if self.journal_entries[k].date_of_entry == date_of_entry {
                found.push(&self.journal_entries[k]);
                proof {
                    assert(found@.map_values(|je: &JournalEntry| *je) =~= prev.map_values(
                        |je: &JournalEntry| *je,
                    ).push(self.journal_entries@[k as int]));
                }
            }
            k += 1;
        }
        proof {
            assert(self.journal_entries@.take(self.journal_entries@.len() as int)
                =~= self.journal_entries@);
        }
        found
    }

    /// All journal entries dated inside `[start_date, end_date]`, both ends
    /// included.
    pub fn get_journal_entry_by_between(
        &self,
        start_date: Timestamp,
        end_date: Timestamp,
    ) -> (r: Vec<&JournalEntry>)
        ensures
            r@.map_values(|je: &JournalEntry| *je) == self.journal_entries@.filter(
                |j: JournalEntry| start_date.spec_le(j.date_of_entry) && j.date_of_entry.spec_le(
                    end_date,
                ),
            ),
    {
        let mut found: Vec<&JournalEntry> = Vec::new();
        let mut k: usize = 0;
        proof {
            assert(self.journal_entries@.take(0) =~= Seq::<JournalEntry>::empty());
            lemma_filter_empty(
                |j: JournalEntry| start_date.spec_le(j.date_of_entry) && j.date_of_entry.spec_le(
                    end_date,
                ),
            );
            assert(found@.map_values(|je: &JournalEntry| *je) =~= Seq::<JournalEntry>::empty());
        }
        while k < self.journal_entries.len()
            invariant
                k <= self.journal_entries@.len(),
                found@.map_values(|je: &JournalEntry| *je) == self.journal_entries@.take(
                    k as int,
                ).filter(
                    |j: JournalEntry| start_date.spec_le(j.date_of_entry)
                        && j.date_of_entry.spec_le(end_date),
                ),
            decreases self.journal_entries@.len() - k,
        {
            let ghost prev = found@;
            proof {
                assert(self.journal_entries@.take(k as int + 1) =~= self.journal_entries@.take(
                    k as int,
                ).push(self.journal_entries@[k as int]));
                lemma_filter_push(
                    self.journal_entries@.take(k as int),
                    |j: JournalEntry| start_date.spec_le(j.date_of_entry)
                        && j.date_of_entry.spec_le(end_date),
                    self.journal_entries@[k as int],
                );
            }
            if start_date.le(&self.journal_entries[k].date_of_entry)
                && self.journal_entries[k].date_of_entry.le(&end_date) {
                found.push(&self.journal_entries[k]);
                proof {
                    assert(found@.map_values(|je: &JournalEntry| *je) =~= prev.map_values(
                        |je: &JournalEntry| *je,
                    ).push(self.journal_entries@[k as int]));
                }
            }
            k += 1;
        }
        proof {
            assert(self.journal_entries@.take(self.journal_entries@.len() as int)
                =~= self.journal_entries@);
        }
        found
    }

    /// All journal entries whose description contains the given text,
    /// case-sensitively.
    pub fn get_journal_entry_by_description(&self, description: &str) -> (r: Vec<&JournalEntry>)
        ensures
            r@.map_values(|je: &JournalEntry| *je) == self.journal_entries@.filter(
                |j: JournalEntry| contains_seq(j.description@, description@),
            ),
    {
        let mut found: Vec<&JournalEntry> = Vec::new();
        let mut k: usize = 0;
        proof {
            assert(self.journal_entries@.take(0) =~= Seq::<JournalEntry>::empty());
            lemma_filter_empty(|j: JournalEntry| contains_seq(j.description@, description@));
            assert(found@.map_values(|je: &JournalEntry| *je) =~= Seq::<JournalEntry>::empty());
        }
        while k < self.journal_entries.len()
            invariant
                k <= self.journal_entries@.len(),
                found@.map_values(|je: &JournalEntry| *je) == self.journal_entries@.take(
                    k as int,
                ).filter(|j: JournalEntry| contains_seq(j.description@, description@)),
            decreases self.journal_entries@.len() - k,
        {
            let ghost prev = found@;
            proof {
                assert(self.journal_entries@.take(k as int + 1) =~= self.journal_entries@.take(
                    k as int,
                ).push(self.journal_entries@[k as int]));
                lemma_filter_push(
                    self.journal_entries@.take(k as int),
                    |j: JournalEntry| contains_seq(j.description@, description@),
                    self.journal_entries@[k as int],
                );
            }
            if contains_sub(self.journal_entries[k].description.as_str(), description) {
                found.push(&self.journal_entries[k]);
                proof {
                    assert(found@.map_values(|je: &JournalEntry| *je) =~= prev.map_values(
                        |je: &JournalEntry| *je,
                    ).push(self.journal_entries@[k as int]));
                }
            }
            k += 1;
        }
        proof {
            assert(self.journal_entries@.take(self.journal_entries@.len() as int)
                =~= self.journal_entries@);
        }
        found
    }

    pub fn number_of_journal_entries(&self) -> (r: usize)
        ensures
            r == self.journal_entries@.len(),
    {
        self.journal_entries.len()
    }
}

/// Filtering an empty sequence yields an empty sequence.
pub proof fn lemma_filter_empty<A>(pred: spec_fn(A) -> bool)
    ensures
        Seq::<A>::empty().filter(pred) == Seq::<A>::empty(),
{
    reveal(Seq::filter);
}

/// One unfolding of `filter` at the end of a sequence.
pub proof fn lemma_filter_push<A>(s: Seq<A>, pred: spec_fn(A) -> bool, x: A)
    ensures
        s.push(x).filter(pred) == (if pred(x) {
            s.filter(pred).push(x)
        } else {
            s.filter(pred)
        }),
{
    reveal(Seq::filter);
    assert(s.push(x).drop_last() =~= s);
    assert(s.push(x).last() == x);
}

/// Whether `needle` occurs in `haystack` starting at position `i`.
pub open spec fn matches_at(haystack: Seq<char>, needle: Seq<char>, i: int) -> bool {
    forall|j: int| 0 <= j < needle.len() ==> haystack[i + j] == #[trigger] needle[j]
}

/// Whether `needle` occurs anywhere in `haystack` as a contiguous run.
pub open spec fn contains_seq(haystack: Seq<char>, needle: Seq<char>) -> bool {
    exists|i: int| 0 <= i <= haystack.len() - needle.len() && #[trigger] matches_at(haystack, needle, i)
}

/// Whether `needle` occurs in `haystack` at position `i`.
fn match_at(haystack: &str, needle: &str, i: usize) -> (r: bool)
    requires
        i + needle@.len() <= haystack@.len(),
    ensures
        r == matches_at(haystack@, needle@, i as int),
{
    let hlen = haystack.unicode_len();
    let nlen = needle.unicode_len();
    let mut j: usize = 0;
    while j < nlen
        invariant
            hlen == haystack@.len(),
            nlen == needle@.len(),
            i + nlen <= haystack@.len(),
            j <= nlen,
            forall|m: int| 0 <= m < j ==> haystack@[i + m] == #[trigger] needle@[m],
        decreases nlen - j,
    {
        if haystack.get_char(i + j) != needle.get_char(j) {
            assert(haystack@[i as int + j as int] != needle@[j as int]);
            return false;
        }
        j += 1;
    }
    true
}

/// Whether `needle` occurs anywhere in `haystack`, case-sensitively.
fn contains_sub(haystack: &str, needle: &str) -> (r: bool)
    ensures
        r == contains_seq(haystack@, needle@),
{
    let hlen = haystack.unicode_len();
    let nlen = needle.unicode_len();
    if nlen > hlen {
        return false;
    }
    let mut i: usize = 0;
    while i <= hlen - nlen
        invariant
            hlen == haystack@.len(),
            nlen == needle@.len(),
            nlen <= hlen,
            i <= hlen - nlen + 1,
            forall|m: int| 0 <= m < i ==> !matches_at(haystack@, needle@, m),
        decreases hlen - nlen - i + 1,
    {
        if match_at(haystack, needle, i) {
            return true;
        }
        i += 1;
    }
    false
}

} // verus!

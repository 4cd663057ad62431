use accounting::accounting_tree::{
    AccountNode, AccountTagNode, AccountTree, ActionType, PrimaryAccountType, RootNode,
};
use accounting::dates::Timestamp;
use accounting::errors::AccountingError;
use accounting::ledger::{EntryType, JournalEntry, Ledger, TransactionEntry};

/// Account handles into the sample chart of accounts, by account.
struct AccountHandles {
    cash: usize,
    inventory: usize,
    short_term_loan: usize,
    revenue: usize,
    cost_of_sales: usize,
}

/// Builds the sample chart of accounts and returns it with the handles of
/// its terminal account nodes.
fn get_account_nodes_map() -> (AccountTree, AccountHandles) {
    let mut tree = AccountTree::new(RootNode::new());
    let root = tree.root();

    let asset = PrimaryAccountType::new("Assets", ActionType::Increase, ActionType::Decrease);
    let liabilities =
        PrimaryAccountType::new("Liabilities", ActionType::Decrease, ActionType::Increase);
    let equity =
        PrimaryAccountType::new("Owner's Equity", ActionType::Increase, ActionType::Decrease);

    let asset_node = AccountTagNode::new(&mut tree, 1, "Asset", Some(root), Some(asset)).unwrap();
    let liabilities_node =
        AccountTagNode::new(&mut tree, 1, "Liabilities", Some(root), Some(liabilities)).unwrap();
    let equity_node =
        AccountTagNode::new(&mut tree, 1, "Owner's Equity", Some(root), Some(equity)).unwrap();

    assert!(tree.add_child(root, asset_node));
    assert!(tree.add_child(root, liabilities_node));
    assert!(tree.add_child(root, equity_node));

    let current_assets_node =
        AccountTagNode::new(&mut tree, 2, "Current Assets", Some(asset_node), None).unwrap();
    let current_liabilities_node =
        AccountTagNode::new(&mut tree, 2, "Current Liabilities", Some(liabilities_node), None)
            .unwrap();
    let retained_earnings_node =
        AccountTagNode::new(&mut tree, 3, "Retained Earnings", Some(equity_node), None).unwrap();

    assert!(tree.add_child(asset_node, current_assets_node));
    assert!(tree.add_child(equity_node, retained_earnings_node));
    assert!(tree.add_child(liabilities_node, current_liabilities_node));

    let cash = AccountNode::new(&mut tree, 3, "Cash", Some(current_assets_node)).unwrap();
    let inventory = AccountNode::new(&mut tree, 3, "Inventory", Some(current_assets_node)).unwrap();
    let short_term_loan =
        AccountNode::new(&mut tree, 3, "Short Term Loan", Some(current_liabilities_node)).unwrap();
    let revenue = AccountNode::new(&mut tree, 3, "Revenue", Some(retained_earnings_node)).unwrap();
    let cost_of_sales =
        AccountNode::new(&mut tree, 3, "Cost of Sales", Some(retained_earnings_node)).unwrap();

    assert!(tree.add_child(current_assets_node, cash));
    assert!(tree.add_child(current_assets_node, inventory));
    assert!(tree.add_child(retained_earnings_node, revenue));
    assert!(tree.add_child(retained_earnings_node, cost_of_sales));
    assert!(tree.add_child(current_liabilities_node, short_term_loan));

    let handles =
        AccountHandles { cash, inventory, short_term_loan, revenue, cost_of_sales };
    (tree, handles)
}

fn sample_date() -> Timestamp {
    Timestamp::new(2024, 3, 1, 12, 0, 0)
}

#[test]
fn test_transaction_entry_creation() {
    let (tree, accounts) = get_account_nodes_map();
    let grocery_transaction_entry = TransactionEntry::new(
        accounts.cash,
        1_000,
        EntryType::Debit,
        sample_date(),
        "Incoming investment",
    );

    assert_eq!(grocery_transaction_entry.amount(), 1_000);
    assert_eq!(grocery_transaction_entry.entry_type(), &EntryType::Debit);
    assert!(grocery_transaction_entry.description().eq("Incoming investment"));

    let retrieved_account = grocery_transaction_entry.account();
    assert_eq!(tree.name(retrieved_account), "Cash");

    let acc_type = tree.account_type(retrieved_account).unwrap();
    let primary_account_name = acc_type.name();
    assert_eq!(primary_account_name, "Assets");
}

#[test]
fn test_journal_entry_creation() {
    let (_tree, accounts) = get_account_nodes_map();

    // First journal entry: a short-term loan used to purchase inventory.
    let mut journal_entry =
        JournalEntry::new(1, sample_date(), "Entry for loan used to purchase inventory");

    let loan_entry = TransactionEntry::new(
        accounts.short_term_loan,
        400,
        EntryType::Credit,
        sample_date(),
        "Short-term loan to purchase inventory",
    );

    let cash_entry_from_loan = TransactionEntry::new(
        accounts.cash,
        400,
        EntryType::Debit,
        sample_date(),
        "Cash that came from the inventory loan",
    );

    journal_entry.add_transaction_entry(loan_entry);
    journal_entry.add_transaction_entry(cash_entry_from_loan);

    assert_eq!(journal_entry.total_credit(), 400);
    assert_eq!(journal_entry.total_debit(), 400);
    assert_eq!(journal_entry.number_of_transaction_entries(), 2);

    let cash_for_inventory_purchase = TransactionEntry::new(
        accounts.cash,
        400,
        EntryType::Credit,
        sample_date(),
        "Cash used to purchase inventory",
    );

    let inventory_purchased = TransactionEntry::new(
        accounts.inventory,
        400,
        EntryType::Debit,
        sample_date(),
        "Inventory to be purchased",
    );

    journal_entry.add_transaction_entry(cash_for_inventory_purchase);
    journal_entry.add_transaction_entry(inventory_purchased);

    assert!(journal_entry.validate());

    let mut sale_journal_entry =
        JournalEntry::new(2, sample_date(), "Journal entry for the sale of the inventory.");

    let inventory_sale = TransactionEntry::new(
        accounts.inventory,
        400,
        EntryType::Credit,
        sample_date(),
        "Selling the purchased inventory",
    );

    let cash_from_sale = TransactionEntry::new(
        accounts.cash,
        700,
        EntryType::Debit,
        sample_date(),
        "Cash received from the sale of the inventory",
    );

    sale_journal_entry.add_transaction_entry(inventory_sale);
    sale_journal_entry.add_transaction_entry(cash_from_sale);

    // This journal entry ought to be unbalanced here.
    assert_eq!(sale_journal_entry.validate(), false);

    // The debit should exceed the credit by 300.
    let total_credit = sale_journal_entry.total_credit();
    let total_debit = sale_journal_entry.total_debit();

    assert_ne!(total_debit, total_credit);
    assert_eq!(total_debit - total_credit, 300);

    let revenue = TransactionEntry::new(
        accounts.revenue,
        700,
        EntryType::Credit,
        sample_date(),
        "Revenue from the sale of the inventory",
    );

    let cost_of_sales = TransactionEntry::new(
        accounts.cost_of_sales,
        400,
        EntryType::Debit,
        sample_date(),
        "Cost equivalent to selling the inventory",
    );

    sale_journal_entry.add_transaction_entry(revenue);
    sale_journal_entry.add_transaction_entry(cost_of_sales);

    assert_eq!(sale_journal_entry.total_debit(), sale_journal_entry.total_credit());
    assert!(sale_journal_entry.validate());
    assert_eq!(sale_journal_entry.number_of_transaction_entries(), 4);
}

#[test]
fn test_ledger_creation() {
    let (_tree, accounts) = get_account_nodes_map();

    // First journal entry.
    let mut journal_entry = JournalEntry::new(
        1,
        Timestamp::new(2024, 2, 28, 0, 0, 0),
        "Entry for loan used to purchase inventory",
    );

    let loan_entry = TransactionEntry::new(
        accounts.short_term_loan,
        400,
        EntryType::Credit,
        sample_date(),
        "Short-term loan to purchase inventory",
    );

    let cash_entry_from_loan = TransactionEntry::new(
        accounts.cash,
        400,
        EntryType::Debit,
        sample_date(),
        "Cash that came from the inventory loan",
    );

    journal_entry.add_transaction_entry(loan_entry);
    journal_entry.add_transaction_entry(cash_entry_from_loan);

    let mut ledger = Ledger::new(
        1,
        Timestamp::new(2024, 1, 1, 0, 0, 0),
        Timestamp::new(2024, 5, 3, 12, 0, 0),
    )
    .unwrap();

    ledger.add_journal_entry(journal_entry).unwrap();

    assert_eq!(ledger.id(), 1);
    assert_eq!(ledger.from_date(), &Timestamp::new(2024, 1, 1, 0, 0, 0));
    assert_eq!(ledger.to_date(), &Timestamp::new(2024, 5, 3, 12, 0, 0));

    assert_eq!(ledger.number_of_journal_entries(), 1);

    // Add another journal entry to the ledger.
    let mut sale_journal_entry = JournalEntry::new(
        2,
        Timestamp::new(2024, 3, 15, 0, 0, 0),
        "Journal entry for the sale of the inventory.",
    );

    let inventory_sale = TransactionEntry::new(
        accounts.inventory,
        400,
        EntryType::Credit,
        sample_date(),
        "Selling the purchased inventory",
    );

    let cash_from_sale = TransactionEntry::new(
        accounts.cash,
        700,
        EntryType::Debit,
        sample_date(),
        "Cash received from the sale of the inventory",
    );

    sale_journal_entry.add_transaction_entry(inventory_sale);
    sale_journal_entry.add_transaction_entry(cash_from_sale);

    ledger.add_journal_entry(sale_journal_entry).unwrap();

    assert_eq!(ledger.number_of_journal_entries(), 2);

    let journal_entry_with_id_1 = ledger.get_journal_entry_by_id(1);
    assert_eq!(journal_entry_with_id_1.unwrap().id(), 1);

    let journal_entries_with_sale_desciption =
        ledger.get_journal_entry_by_description("sale of the inventory");
    assert_eq!(journal_entries_with_sale_desciption.len(), 1);
    assert!(journal_entries_with_sale_desciption
        .get(0)
        .unwrap()
        .description()
        .eq("Journal entry for the sale of the inventory."));

    let journal_entries_between = ledger.get_journal_entry_by_between(
        Timestamp::new(2024, 1, 15, 0, 0, 0),
        Timestamp::new(2024, 3, 1, 0, 0, 0),
    );

    assert_eq!(journal_entries_between.len(), 1);
    assert_eq!(
        journal_entries_between.get(0).unwrap().date_of_entry(),
        Timestamp::new(2024, 2, 28, 0, 0, 0)
    );
    assert!(journal_entries_between
        .get(0)
        .unwrap()
        .description()
        .eq("Entry for loan used to purchase inventory"));
    assert_eq!(journal_entries_between.get(0).unwrap().id(), 1);

    let journal_entries_on_date =
        ledger.get_journal_entries_by_date(Timestamp::new(2024, 3, 15, 0, 0, 0));
    assert_eq!(journal_entries_on_date.len(), 1);
    assert_eq!(
        journal_entries_on_date.get(0).unwrap().date_of_entry(),
        Timestamp::new(2024, 3, 15, 0, 0, 0)
    );
    assert!(journal_entries_on_date
        .get(0)
        .unwrap()
        .description()
        .eq("Journal entry for the sale of the inventory."));
    assert_eq!(journal_entries_on_date.get(0).unwrap().id(), 2);

    assert_eq!(ledger.number_of_journal_entries(), 2);

    // Remove the journal entry with id 1.
    ledger.remove_journal_entry(1);

    assert_eq!(ledger.number_of_journal_entries(), 1);
    assert_eq!(ledger.journal_entries().get(0).unwrap().id(), 2);

    // Remove all journal entries; the ledger keeps its id.
    ledger.remove_all_journal_entries();

    assert_eq!(ledger.number_of_journal_entries(), 0);
    assert_eq!(ledger.id(), 1);
}

#[test]
fn unmatched_debit_flips_validate_and_delta_is_exact() {
    let (_tree, accounts) = get_account_nodes_map();
    let mut entry = JournalEntry::new(7, sample_date(), "Balanced, then not");
    entry.add_transaction_entry(TransactionEntry::new(
        accounts.short_term_loan,
        250,
        EntryType::Credit,
        sample_date(),
        "Loan",
    ));
    entry.add_transaction_entry(TransactionEntry::new(
        accounts.cash,
        250,
        EntryType::Debit,
        sample_date(),
        "Cash from loan",
    ));
    assert!(entry.validate());

    // A single unmatched 700 debit flips validation, and the debit/credit
    // delta equals the injected amount exactly.
    entry.add_transaction_entry(TransactionEntry::new(
        accounts.cash,
        700,
        EntryType::Debit,
        sample_date(),
        "Unmatched",
    ));
    assert!(!entry.validate());
    assert_eq!(entry.total_debit() - entry.total_credit(), 700);
}

#[test]
fn ledger_rejects_entries_outside_its_window() {
    let mut ledger = Ledger::new(
        9,
        Timestamp::new(2024, 1, 1, 0, 0, 0),
        Timestamp::new(2024, 12, 31, 23, 59, 59),
    )
    .unwrap();
    let in_range = JournalEntry::new(1, Timestamp::new(2024, 6, 1, 0, 0, 0), "inside");
    ledger.add_journal_entry(in_range).unwrap();

    // An entry dated outside the window fails without mutating the list.
    let too_late = JournalEntry::new(2, Timestamp::new(2025, 1, 1, 0, 0, 0), "outside");
    let r = ledger.add_journal_entry(too_late);
    assert_eq!(r, Err(AccountingError::DateOutOfRange { journal_entry_id: 2 }));
    assert_eq!(ledger.number_of_journal_entries(), 1);
    assert_eq!(ledger.journal_entries().get(0).unwrap().id(), 1);

    let too_early = JournalEntry::new(3, Timestamp::new(2023, 12, 31, 23, 59, 59), "outside");
    let r = ledger.add_journal_entry(too_early);
    assert_eq!(r, Err(AccountingError::DateOutOfRange { journal_entry_id: 3 }));
    assert_eq!(ledger.number_of_journal_entries(), 1);

    // Bulk insertion is all-or-nothing: one bad date rejects the whole
    // batch before anything is appended.
    let mut batch = vec![
        JournalEntry::new(4, Timestamp::new(2024, 7, 1, 0, 0, 0), "inside"),
        JournalEntry::new(5, Timestamp::new(2026, 1, 1, 0, 0, 0), "outside"),
    ];
    let r = ledger.add_journal_entries(&mut batch);
    assert_eq!(r, Err(AccountingError::DateOutOfRange { journal_entry_id: 5 }));
    assert_eq!(ledger.number_of_journal_entries(), 1);
    assert_eq!(batch.len(), 2);

    // A batch of valid dates is appended whole and drained.
    let mut batch = vec![
        JournalEntry::new(4, Timestamp::new(2024, 7, 1, 0, 0, 0), "inside"),
        JournalEntry::new(5, Timestamp::new(2024, 8, 1, 0, 0, 0), "inside"),
    ];
    ledger.add_journal_entries(&mut batch).unwrap();
    assert_eq!(ledger.number_of_journal_entries(), 3);
    assert_eq!(batch.len(), 0);

    // Replacing the entries validates the same way.
    let replacement = vec![JournalEntry::new(6, Timestamp::new(2027, 1, 1, 0, 0, 0), "outside")];
    let r = ledger.set_journal_entries(replacement);
    assert_eq!(r, Err(AccountingError::DateOutOfRange { journal_entry_id: 6 }));
    assert_eq!(ledger.number_of_journal_entries(), 3);

    let replacement = vec![JournalEntry::new(6, Timestamp::new(2024, 9, 1, 0, 0, 0), "inside")];
    ledger.set_journal_entries(replacement).unwrap();
    assert_eq!(ledger.number_of_journal_entries(), 1);

    // Resetting clears the entries and the id but keeps the window.
    ledger.reset();
    assert_eq!(ledger.id(), 0);
    assert_eq!(ledger.number_of_journal_entries(), 0);
    assert_eq!(ledger.from_date(), &Timestamp::new(2024, 1, 1, 0, 0, 0));
}

#[test]
fn ledger_construction_checks_the_window() {
    let r = Ledger::new(
        1,
        Timestamp::new(2024, 5, 1, 0, 0, 0),
        Timestamp::new(2024, 1, 1, 0, 0, 0),
    );
    assert!(matches!(r, Err(AccountingError::InvalidDateWindow)));

    // A window of a single instant is allowed.
    let instant = Timestamp::new(2024, 5, 1, 0, 0, 0);
    let ledger = Ledger::new(1, instant, instant).unwrap();
    assert_eq!(ledger.number_of_journal_entries(), 0);
}

#[test]
fn removing_an_absent_id_is_a_no_op() {
    let mut ledger = Ledger::new(
        1,
        Timestamp::new(2024, 1, 1, 0, 0, 0),
        Timestamp::new(2024, 12, 31, 0, 0, 0),
    )
    .unwrap();
    ledger
        .add_journal_entry(JournalEntry::new(1, Timestamp::new(2024, 2, 1, 0, 0, 0), "kept"))
        .unwrap();
    ledger.remove_journal_entry(42);
    assert_eq!(ledger.number_of_journal_entries(), 1);
    assert!(ledger.get_journal_entry_by_id(42).is_none());
}

#[test]
fn timestamps_order_chronologically() {
    let earlier = Timestamp::new(2024, 2, 28, 23, 59, 59);
    let later = Timestamp::new(2024, 3, 1, 0, 0, 0);
    assert!(earlier.le(&later));
    assert!(!later.le(&earlier));
    assert!(later.ge(&earlier));
    assert!(earlier.le(&earlier));
    assert_eq!(earlier.year(), 2024);
    assert_eq!(earlier.month(), 2);
    assert_eq!(earlier.day(), 28);
    assert_eq!(earlier.hour(), 23);
    assert_eq!(earlier.minute(), 59);
    assert_eq!(earlier.second(), 59);
}

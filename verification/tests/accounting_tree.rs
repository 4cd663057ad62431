use accounting::accounting_tree::{
    AccountNode, AccountTagNode, AccountTree, ActionType, AmountAggregator, Ancestors,
    Descendants, PrimaryAccountType, RootNode, DFS,
};
use accounting::errors::AccountingError;

/// Builds the sample chart of accounts used by the traversal and
/// aggregation tests, with amounts already set on the leaves, and returns
/// the tree.
fn get_root_node() -> AccountTree {
    let mut tree = AccountTree::new(RootNode::new());
    let root = tree.root();

    let asset = PrimaryAccountType::new("Assets", ActionType::Increase, ActionType::Decrease);
    let liabilities =
        PrimaryAccountType::new("Liabilities", ActionType::Decrease, ActionType::Increase);
    let equity =
        PrimaryAccountType::new("Owner's Equity", ActionType::Increase, ActionType::Decrease);

    let asset_node = AccountTagNode::new(&mut tree, 1, "Asset", Some(root), Some(asset)).unwrap();
    let liabilities_node =
        AccountTagNode::new(&mut tree, 1, "Liabilities", Some(root), Some(liabilities)).unwrap();
    let equity_node =
        AccountTagNode::new(&mut tree, 1, "Owner's Equity", Some(root), Some(equity)).unwrap();

    assert!(tree.add_child(root, asset_node));
    assert!(tree.add_child(root, liabilities_node));
    assert!(tree.add_child(root, equity_node));

    let current_assets_node =
        AccountTagNode::new(&mut tree, 2, "Current Assets", Some(asset_node), None).unwrap();
    let current_liabilities_node =
        AccountTagNode::new(&mut tree, 2, "Current Liabilities", Some(liabilities_node), None)
            .unwrap();
    let retained_earnings_node =
        AccountTagNode::new(&mut tree, 3, "Retained Earnings", Some(equity_node), None).unwrap();

    assert!(tree.add_child(asset_node, current_assets_node));
    assert!(tree.add_child(equity_node, retained_earnings_node));
    assert!(tree.add_child(liabilities_node, current_liabilities_node));

    let cash = AccountNode::new(&mut tree, 3, "Cash", Some(current_assets_node)).unwrap();
    tree.set_amount(cash, 1200);

    let inventory = AccountNode::new(&mut tree, 3, "Inventory", Some(current_assets_node)).unwrap();
    tree.set_amount(inventory, 800);

    let short_term_loan =
        AccountNode::new(&mut tree, 3, "Short Term Loan", Some(current_liabilities_node)).unwrap();
    tree.set_amount(short_term_loan, 700);

    let revenue = AccountNode::new(&mut tree, 3, "Revenue", Some(retained_earnings_node)).unwrap();
    tree.set_amount(revenue, 500);

    let cost_of_sales =
        AccountNode::new(&mut tree, 3, "Cost of Sales", Some(retained_earnings_node)).unwrap();
    tree.set_amount(cost_of_sales, 800);

    assert!(tree.add_child(current_assets_node, cash));
    assert!(tree.add_child(current_assets_node, inventory));
    assert!(tree.add_child(retained_earnings_node, revenue));
    assert!(tree.add_child(retained_earnings_node, cost_of_sales));
    assert!(tree.add_child(current_liabilities_node, short_term_loan));

    tree
}

#[test]
fn test_dfs_traversal() {
    let tree = get_root_node();

    let mut dfs = DFS::new(tree.root());
    let query = "Cost of Sales";
    let result = dfs.traverse(&tree, query);

    match result {
        None => {
            println!("{:?} was never found", query);
            panic!("{:?} was never found", query);
        }
        Some(node) => {
            println!("Node with name: {:?} was found.", tree.name(node));
            assert_eq!(tree.name(node), "Cost of Sales");
        }
    }
}

#[test]
fn test_amount_aggregator() {
    let mut tree = get_root_node();

    let mut ammount_aggregator = AmountAggregator::new(tree.root());
    ammount_aggregator.aggregate(&mut tree);

    let mut dfs = DFS::new(tree.root());
    let query = "Owner's Equity";
    let result = dfs.traverse(&tree, query);

    match result {
        None => {
            println!("{:?} was never found", query);
        }
        Some(node) => {
            println!(
                "Node with name: {:?} was found has a subtotal of: {:?}",
                tree.name(node),
                tree.amount(node)
            );
            assert_eq!(tree.amount(node), 1300);
        }
    }

    assert_eq!(true, true);
}

#[test]
fn aggregate_sums_leaves_to_every_ancestor() {
    // A three-level chart: two leaves valued 1200 and 800 under one tag.
    // Aggregation fills the tag with 2000 and propagates it upward.
    let mut tree = AccountTree::new(RootNode::new());
    let root = tree.root();
    let asset = PrimaryAccountType::new("Assets", ActionType::Increase, ActionType::Decrease);
    let assets = AccountTagNode::new(&mut tree, 1, "Assets", Some(root), Some(asset)).unwrap();
    assert!(tree.add_child(root, assets));
    let cash = AccountNode::new(&mut tree, 2, "Cash", Some(assets)).unwrap();
    let inventory = AccountNode::new(&mut tree, 2, "Inventory", Some(assets)).unwrap();
    assert!(tree.add_child(assets, cash));
    assert!(tree.add_child(assets, inventory));
    tree.set_amount(cash, 1200);
    tree.set_amount(inventory, 800);

    let mut aggregator = AmountAggregator::new(tree.root());
    let returned = aggregator.aggregate(&mut tree);

    assert_eq!(returned, root);
    assert_eq!(tree.amount(assets), 2000);
    assert_eq!(tree.amount(root), 2000);
    assert_eq!(tree.amount(cash), 1200);
    assert_eq!(tree.amount(inventory), 800);
}

#[test]
fn aggregate_twice_double_counts_without_reset() {
    // Running the aggregation twice without re-deriving the leaves counts
    // propagated totals again: a documented hazard, preserved.
    let mut tree = AccountTree::new(RootNode::new());
    let root = tree.root();
    let asset = PrimaryAccountType::new("Assets", ActionType::Increase, ActionType::Decrease);
    let assets = AccountTagNode::new(&mut tree, 1, "Assets", Some(root), Some(asset)).unwrap();
    assert!(tree.add_child(root, assets));
    let cash = AccountNode::new(&mut tree, 2, "Cash", Some(assets)).unwrap();
    assert!(tree.add_child(assets, cash));
    tree.set_amount(cash, 100);

    let mut aggregator = AmountAggregator::new(tree.root());
    aggregator.aggregate(&mut tree);
    assert_eq!(tree.amount(assets), 100);
    aggregator.aggregate(&mut tree);
    assert_eq!(tree.amount(assets), 200);
}

#[test]
fn node_level_is_parent_level_plus_one() {
    let mut tree = AccountTree::new(RootNode::new());
    let root = tree.root();
    assert_eq!(tree.level(root), 0);
    assert_eq!(tree.parent(root), None);

    let asset = PrimaryAccountType::new("Assets", ActionType::Increase, ActionType::Decrease);
    let assets = AccountTagNode::new(&mut tree, 1, "Assets", Some(root), Some(asset)).unwrap();
    assert!(tree.add_child(root, assets));
    let current = AccountTagNode::new(&mut tree, 2, "Current Assets", Some(assets), None).unwrap();
    assert!(tree.add_child(assets, current));
    let cash = AccountNode::new(&mut tree, 3, "Cash", Some(current)).unwrap();
    assert!(tree.add_child(current, cash));

    assert_eq!(tree.level(assets), tree.level(root) + 1);
    assert_eq!(tree.level(current), tree.level(assets) + 1);
    assert_eq!(tree.level(cash), tree.level(current) + 1);
    assert_eq!(tree.parent(cash), Some(current));
    assert_eq!(tree.parent(current), Some(assets));
}

#[test]
fn account_type_inherited_from_nearest_level_one_ancestor() {
    let mut tree = AccountTree::new(RootNode::new());
    let root = tree.root();
    let asset = PrimaryAccountType::new("Assets", ActionType::Increase, ActionType::Decrease);
    let assets = AccountTagNode::new(&mut tree, 1, "Assets", Some(root), Some(asset)).unwrap();
    assert!(tree.add_child(root, assets));

    // A level-one tag node carries the type it was constructed with.
    assert_eq!(tree.account_type(assets).unwrap().name(), "Assets");

    // Deeper tag nodes and terminal account nodes inherit it, at any depth.
    let l2 = AccountTagNode::new(&mut tree, 2, "Current Assets", Some(assets), None).unwrap();
    assert!(tree.add_child(assets, l2));
    let l3 = AccountTagNode::new(&mut tree, 3, "Cash Equivalents", Some(l2), None).unwrap();
    assert!(tree.add_child(l2, l3));
    let leaf = AccountNode::new(&mut tree, 4, "Cash", Some(l3)).unwrap();
    assert!(tree.add_child(l3, leaf));

    assert_eq!(tree.account_type(l2).unwrap().name(), "Assets");
    assert_eq!(tree.account_type(l3).unwrap().name(), "Assets");
    assert_eq!(tree.account_type(leaf).unwrap().name(), "Assets");
    assert_eq!(*tree.account_type(leaf).unwrap().on_debit(), ActionType::Increase);
    assert_eq!(*tree.account_type(leaf).unwrap().on_credit(), ActionType::Decrease);
}

#[test]
fn tag_node_construction_errors() {
    let mut tree = AccountTree::new(RootNode::new());
    let root = tree.root();
    let asset = PrimaryAccountType::new("Assets", ActionType::Increase, ActionType::Decrease);

    // A tag node below level one is refused.
    let r = AccountTagNode::new(&mut tree, 0, "Broken", Some(root), None);
    assert_eq!(r, Err(AccountingError::InvalidLevel { level: 0 }));

    // A level-one tag node cannot miss an account type.
    let r = AccountTagNode::new(&mut tree, 1, "Assets", Some(root), None);
    assert_eq!(r, Err(AccountingError::MissingAccountType));

    // A deeper tag node needs a parent.
    let r = AccountTagNode::new(&mut tree, 2, "Current Assets", None, None);
    assert_eq!(r, Err(AccountingError::MissingParent));

    // The ancestor walk fails when it tops out before level one: the root
    // sits at level zero and has no parent.
    let r = AccountTagNode::new(&mut tree, 2, "Current Assets", Some(root), None);
    assert_eq!(r, Err(AccountingError::NoLevelOneAncestor));

    // A terminal account node needs a parent.
    let r = AccountNode::new(&mut tree, 2, "Cash", None);
    assert_eq!(r, Err(AccountingError::MissingParent));

    // And a valid construction still succeeds afterwards.
    let assets = AccountTagNode::new(&mut tree, 1, "Assets", Some(root), Some(asset)).unwrap();
    assert!(tree.add_child(root, assets));
}

#[test]
fn add_child_refuses_terminal_parents_and_duplicates() {
    let mut tree = AccountTree::new(RootNode::new());
    let root = tree.root();
    let asset = PrimaryAccountType::new("Assets", ActionType::Increase, ActionType::Decrease);
    let assets = AccountTagNode::new(&mut tree, 1, "Assets", Some(root), Some(asset)).unwrap();
    assert!(tree.add_child(root, assets));
    assert!(!tree.add_child(root, assets), "a node cannot be attached twice");

    let cash = AccountNode::new(&mut tree, 2, "Cash", Some(assets)).unwrap();
    assert!(tree.add_child(assets, cash));
    let orphan = AccountNode::new(&mut tree, 3, "Petty Cash", Some(cash)).unwrap();
    // Attempts to add children to a terminal account node are no-ops.
    assert!(!tree.add_child(cash, orphan));
    assert_eq!(tree.children(cash).len(), 0);

    // A child constructed under a different parent is refused too.
    assert!(!tree.add_child(root, cash));
}

#[test]
fn dfs_is_case_insensitive_and_first_match_pre_order() {
    let tree = get_root_node();
    let mut dfs = DFS::new(tree.root());

    let hit = dfs.traverse(&tree, "cost of SALES").unwrap();
    assert_eq!(tree.name(hit), "Cost of Sales");

    assert_eq!(dfs.traverse(&tree, "No Such Account"), None);

    // The first match in pre-order, left-to-right child order, wins.
    let first = dfs.traverse(&tree, "ASSET").unwrap();
    assert_eq!(tree.name(first), "Asset");
    assert_eq!(tree.level(first), 1);
}

#[test]
fn ancestors_walk_reaches_the_root() {
    let tree = get_root_node();
    let mut dfs = DFS::new(tree.root());
    let cash = dfs.traverse(&tree, "Cash").unwrap();

    let mut ancestors = Ancestors::new(cash);
    let p1 = ancestors.next(&tree).unwrap();
    assert_eq!(tree.name(p1), "Current Assets");
    let p2 = ancestors.next(&tree).unwrap();
    assert_eq!(tree.name(p2), "Asset");
    let p3 = ancestors.next(&tree).unwrap();
    assert_eq!(tree.name(p3), "root");
    assert_eq!(ancestors.next(&tree), None);
}

#[test]
fn descendants_walk_yields_generations() {
    let tree = get_root_node();
    let mut descendants = Descendants::new(&tree, tree.root());

    let first = descendants.next(&tree).unwrap();
    let names: Vec<&str> = first.iter().map(|n| tree.name(*n)).collect();
    assert_eq!(names, vec!["Asset", "Liabilities", "Owner's Equity"]);

    let second = descendants.next(&tree).unwrap();
    let names: Vec<&str> = second.iter().map(|n| tree.name(*n)).collect();
    assert_eq!(names, vec!["Current Assets", "Current Liabilities", "Retained Earnings"]);

    let third = descendants.next(&tree).unwrap();
    assert_eq!(third.len(), 5);

    assert_eq!(descendants.next(&tree), None);
}

#[test]
fn set_action_type_rejects_equal_actions() {
    let mut ty = PrimaryAccountType::new("Assets", ActionType::Increase, ActionType::Decrease);
    assert!(ty.has_distinct_actions());

    // An assignment where both actions coincide is ignored and reported.
    assert!(!ty.set_action_type(ActionType::Increase, ActionType::Increase));
    assert_eq!(*ty.on_debit(), ActionType::Increase);
    assert_eq!(*ty.on_credit(), ActionType::Decrease);

    assert!(ty.set_action_type(ActionType::Decrease, ActionType::Increase));
    assert_eq!(*ty.on_debit(), ActionType::Decrease);
    assert_eq!(*ty.on_credit(), ActionType::Increase);

    ty.set_name(String::from("Liabilities"));
    assert_eq!(ty.name(), "Liabilities");

    // Construction is lenient: an inconsistent value is representable and
    // reports itself.
    let odd = PrimaryAccountType::new("Odd", ActionType::Increase, ActionType::Increase);
    assert!(!odd.has_distinct_actions());
}

#[test]
fn get_node_by_name_delegates_to_dfs() {
    let tree = get_root_node();
    let node = tree.get_node_by_name("inventory").unwrap();
    assert_eq!(tree.name(node), "Inventory");
    assert_eq!(tree.get_node_by_name("missing"), None);
}

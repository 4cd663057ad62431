use vstd::prelude::*;

use crate::errors::AccountingError;

verus! {

/// How a debit or a credit moves an account's balance.
#[derive(Debug, Clone, Copy, PartialEq, Eq, Structural)]
pub enum ActionType {
    Increase,
    Decrease,
}

/// A top-level account classification (Assets, Liabilities, Equity, ...)
/// recording how its balance moves on a debit and on a credit.  The two
/// actions are expected to differ; a value that violates this is
/// representable (construction is lenient) and reports itself through
/// [`PrimaryAccountType::has_distinct_actions`].
#[derive(Debug)]
pub struct PrimaryAccountType {
    pub name: String,
    pub on_debit: ActionType,
    pub on_credit: ActionType,
}

impl PrimaryAccountType {
    pub fn new(name: &str, on_debit: ActionType, on_credit: ActionType) -> (r: Self)
        ensures
            r.name@ == name@,
            r.on_debit == on_debit,
            r.on_credit == on_credit,
    {
        PrimaryAccountType { name: name.to_owned(), on_debit, on_credit }
    }

    pub fn name(&self) -> (r: &str)
        ensures
            r@ == self.name@,
    {
        self.name.as_str()
    }

    pub fn on_debit(&self) -> (r: &ActionType)
        ensures
            *r == self.on_debit,
    {
        &self.on_debit
    }

    pub fn on_credit(&self) -> (r: &ActionType)
        ensures
            *r == self.on_credit,
    {
        &self.on_credit
    }

    pub fn set_name(&mut self, name: String)
        ensures
            final(self).name == name,
            final(self).on_debit == old(self).on_debit,
            final(self).on_credit == old(self).on_credit,
    {
        self.name = name;
    }

    /// Replaces both actions.  An assignment where the two actions coincide
    /// is an accounting-rule violation: it is ignored and reported by
    /// returning `false`.
    pub fn set_action_type(&mut self, on_debit: ActionType, on_credit: ActionType) -> (applied: bool)
        ensures
            applied == (on_debit != on_credit),
            applied ==> *final(self) == (PrimaryAccountType {
                on_debit,
                on_credit,
                ..*old(self)
            }),
            !applied ==> *final(self) == *old(self),
    {
        if on_debit == on_credit {
            return false;
        }
        self.on_debit = on_debit;
        self.on_credit = on_credit;
        true
    }

    /// Whether the debit action differs from the credit action, as a sound
    /// classification requires.
    pub fn has_distinct_actions(&self) -> (r: bool)
        ensures
            r == (self.on_debit != self.on_credit),
    {
        self.on_debit != self.on_credit
    }
}

impl Clone for PrimaryAccountType {
    fn clone(&self) -> (r: Self)
        ensures
            r == *self,
    {
        PrimaryAccountType {
            name: self.name.clone(),
            on_debit: self.on_debit,
            on_credit: self.on_credit,
        }
    }
}

/// The top-level node of an accounting tree: level zero, no parent, no
/// account type of its own.
#[derive(Debug)]
pub struct RootNode {
    pub name: String,
    pub children: Vec<usize>,
    pub amount: i64,
}

/// A category or sub-category node.  A level-one tag node carries the
/// primary account type it was constructed with; deeper tag nodes carry a
/// copy of their nearest level-one ancestor's type, resolved once at
/// construction.
#[derive(Debug)]
pub struct AccountTagNode {
    pub level: usize,
    pub name: String,
    pub parent: Option<usize>,
    pub children: Vec<usize>,
    pub account_type: PrimaryAccountType,
    pub amount: i64,
}

/// A terminal node standing for a concrete ledger account.  Its child list
/// exists for uniformity with the other node kinds and stays empty.
#[derive(Debug)]
pub struct AccountNode {
    pub level: usize,
    pub name: String,
    pub parent: usize,
    pub children: Vec<usize>,
    pub account_type: Option<PrimaryAccountType>,
    pub amount: i64,
}

/// One node of an accounting tree.  Nodes live in the arena of an
/// [`AccountTree`] and refer to each other by index, which keeps parent and
/// child references acyclic: a node's parent always has a smaller index.
#[derive(Debug)]
pub enum TreeNode {
    Root(RootNode),
    Tag(AccountTagNode),
    Account(AccountNode),
}

impl TreeNode {
    pub open spec fn spec_level(self) -> nat {
        match self {
            TreeNode::Root(_) => 0,
            TreeNode::Tag(t) => t.level as nat,
            TreeNode::Account(a) => a.level as nat,
        }
    }

    pub open spec fn spec_name(self) -> Seq<char> {
        match self {
            TreeNode::Root(r) => r.name@,
            TreeNode::Tag(t) => t.name@,
            TreeNode::Account(a) => a.name@,
        }
    }

    pub open spec fn spec_parent(self) -> Option<usize> {
        match self {
            TreeNode::Root(_) => None,
            TreeNode::Tag(t) => t.parent,
            TreeNode::Account(a) => Some(a.parent),
        }
    }

    pub open spec fn spec_children(self) -> Seq<usize> {
        match self {
            TreeNode::Root(r) => r.children@,
            TreeNode::Tag(t) => t.children@,
            TreeNode::Account(a) => a.children@,
        }
    }

    pub open spec fn spec_amount(self) -> i64 {
        match self {
            TreeNode::Root(r) => r.amount,
            TreeNode::Tag(t) => t.amount,
            TreeNode::Account(a) => a.amount,
        }
    }

    pub open spec fn spec_account_type(self) -> Option<PrimaryAccountType> {
        match self {
            TreeNode::Root(_) => None,
            TreeNode::Tag(t) => Some(t.account_type),
            TreeNode::Account(a) => a.account_type,
        }
    }

    /// The same node with its amount replaced.
    pub open spec fn with_amount(self, amount: i64) -> TreeNode {
        match self {
            TreeNode::Root(r) => TreeNode::Root(RootNode { amount, ..r }),
            TreeNode::Tag(t) => TreeNode::Tag(AccountTagNode { amount, ..t }),
            TreeNode::Account(a) => TreeNode::Account(AccountNode { amount, ..a }),
        }
    }

    /// Whether `other` is this node with exactly one more child appended and
    /// everything else unchanged.
    pub open spec fn child_appended(self, other: TreeNode, child: usize) -> bool {
        &&& (self is Root <==> other is Root)
        &&& (self is Tag <==> other is Tag)
        &&& (self is Account <==> other is Account)
        &&& other.spec_level() == self.spec_level()
        &&& other.spec_name() == self.spec_name()
        &&& other.spec_parent() == self.spec_parent()
        &&& other.spec_account_type() == self.spec_account_type()
        &&& other.spec_amount() == self.spec_amount()
        &&& other.spec_children() == self.spec_children().push(child)
    }
}

impl RootNode {
    /// Creates a root node: level zero, no parent, no children yet, named
    /// "root".
    pub fn new() -> (r: RootNode)
        ensures
            r.name@ == "root"@,
            r.children@ == Seq::<usize>::empty(),
            r.amount == 0,
    {
        RootNode { name: "root".to_owned(), children: Vec::new(), amount: 0 }
    }
}

/// Two nodes that agree on everything but their amounts.
pub open spec fn node_shape_eq(a: TreeNode, b: TreeNode) -> bool {
    &&& (a is Root <==> b is Root)
    &&& (a is Tag <==> b is Tag)
    &&& (a is Account <==> b is Account)
    &&& a.spec_level() == b.spec_level()
    &&& a.spec_name() == b.spec_name()
    &&& a.spec_parent() == b.spec_parent()
    &&& a.spec_children() == b.spec_children()
    &&& a.spec_account_type() == b.spec_account_type()
}

/// Two node arenas that agree on everything but their amounts.
pub open spec fn same_structure(a: Seq<TreeNode>, b: Seq<TreeNode>) -> bool {
    &&& a.len() == b.len()
    &&& forall|i: int| 0 <= i < a.len() ==> node_shape_eq(a[i], #[trigger] b[i])
}

/// The nearest node at level one on the parent chain starting at `i` itself:
/// `i` if `i` is at level one, else the walk continues at `i`'s parent.
/// `None` when the chain ends before reaching level one.
pub open spec fn level_one_ancestor_from(nodes: Seq<TreeNode>, i: int) -> Option<int>
    decreases i,
{
    if !(0 <= i < nodes.len()) {
        None
    } else if nodes[i].spec_level() == 1 {
        Some(i)
    } else {
        match nodes[i].spec_parent() {
            None => None,
            Some(p) => if (p as int) < i {
                level_one_ancestor_from(nodes, p as int)
            } else {
                None
            },
        }
    }
}

/// The nearest strict ancestor of `i` at level one.
pub open spec fn nearest_level_one(nodes: Seq<TreeNode>, i: int) -> Option<int> {
    if 0 <= i < nodes.len() {
        match nodes[i].spec_parent() {
            None => None,
            Some(p) => if (p as int) < i {
                level_one_ancestor_from(nodes, p as int)
            } else {
                None
            },
        }
    } else {
        None
    }
}

/// The cached account type of every node agrees with its origin: a tag node
/// deeper than level one carries its nearest level-one ancestor's type, and a
/// terminal account node carries its parent's type.
pub open spec fn wf_type_at(nodes: Seq<TreeNode>, i: int) -> bool {
    match nodes[i] {
        TreeNode::Root(_) => true,
        TreeNode::Tag(t) => t.level > 1 ==> (match nearest_level_one(nodes, i) {
            Some(a) => nodes[a].spec_account_type() == Some(t.account_type),
            None => false,
        }),
        TreeNode::Account(a) => (a.parent as int) < i
            ==> a.account_type == nodes[a.parent as int].spec_account_type(),
    }
}

/// Structural well-formedness of the node at index `i`:
/// the root sits at index zero and nowhere else; parents come before their
/// children, so the arena is acyclic; child lists are consistent with parent
/// references and free of duplicates; terminal nodes have no children; tag
/// levels start at one; and cached account types are consistent
/// ([`wf_type_at`]).
pub open spec fn wf_node_at(nodes: Seq<TreeNode>, i: int) -> bool {
    let n = nodes[i];
    &&& (n is Root <==> i == 0)
    &&& (match n.spec_parent() {
        Some(p) => (p as int) < i,
        None => true,
    })
    &&& (n is Tag ==> n.spec_level() >= 1)
    &&& (n is Account ==> n.spec_children().len() == 0)
    &&& (forall|k: int|
        0 <= k < n.spec_children().len() ==> {
            let c = #[trigger] n.spec_children()[k];
            &&& i < (c as int) < nodes.len()
            &&& nodes[c as int].spec_parent() == Some(i as usize)
        })
    &&& (forall|k1: int, k2: int|
        0 <= k1 < k2 < n.spec_children().len()
            ==> #[trigger] n.spec_children()[k1] != #[trigger] n.spec_children()[k2])
    &&& wf_type_at(nodes, i)
}

/// An arena of tree nodes rooted at index zero.  Nodes are added through the
/// node constructors and attached with [`AccountTree::add_child`]; both keep
/// the tree well formed.
#[derive(Debug)]
pub struct AccountTree {
    pub nodes: Vec<TreeNode>,
}

impl AccountTree {
    /// Well-formedness of the whole arena.
    pub open spec fn wf(&self) -> bool {
        &&& self.nodes@.len() >= 1
        &&& forall|i: int| 0 <= i < self.nodes@.len() ==> wf_node_at(self.nodes@, i)
    }

    /// Creates a tree holding only the given root node.
    pub fn new(root: RootNode) -> (r: AccountTree)
        requires
            root.children@.len() == 0,
        ensures
            r.wf(),
            r.nodes@.len() == 1,
            r.nodes@[0] == TreeNode::Root(root),
    {
        let mut nodes: Vec<TreeNode> = Vec::new();
        nodes.push(TreeNode::Root(root));
        let r = AccountTree { nodes };
        proof {
            assert(wf_node_at(r.nodes@, 0));
        }
        r
    }

    /// The handle of the tree's root node.
    pub fn root(&self) -> (r: usize)
        ensures
            r == 0,
    {
        0
    }

    /// Replaces the tree's contents with the given root node alone.
    pub fn set_root(&mut self, root: RootNode)
        requires
            root.children@.len() == 0,
        ensures
            final(self).wf(),
            final(self).nodes@.len() == 1,
            final(self).nodes@[0] == TreeNode::Root(root),
    {
        let mut nodes: Vec<TreeNode> = Vec::new();
        nodes.push(TreeNode::Root(root));
        self.nodes = nodes;
        proof {
            assert(wf_node_at(self.nodes@, 0));
        }
    }

    /// The number of nodes in the arena.
    pub fn node_count(&self) -> (r: usize)
        ensures
            r == self.nodes@.len(),
    {
        self.nodes.len()
    }

    /// The level of a node; the root is at level zero.
    pub fn level(&self, node: usize) -> (r: usize)
        requires
            node < self.nodes@.len(),
        ensures
            r as nat == self.nodes@[node as int].spec_level(),
    {
        match &self.nodes[node] {
            TreeNode::Root(_) => 0,
            TreeNode::Tag(t) => t.level,
            TreeNode::Account(a) => a.level,
        }
    }

    /// The name of a node.
    pub fn name(&self, node: usize) -> (r: &str)
        requires
            node < self.nodes@.len(),
        ensures
            r@ == self.nodes@[node as int].spec_name(),
    {
        match &self.nodes[node] {
            TreeNode::Root(n) => n.name.as_str(),
            TreeNode::Tag(t) => t.name.as_str(),
            TreeNode::Account(a) => a.name.as_str(),
        }
    }

    /// The amount currently stored at a node.
    pub fn amount(&self, node: usize) -> (r: i64)
        requires
            node < self.nodes@.len(),
        ensures
            r == self.nodes@[node as int].spec_amount(),
    {
        match &self.nodes[node] {
            TreeNode::Root(n) => n.amount,
            TreeNode::Tag(t) => t.amount,
            TreeNode::Account(a) => a.amount,
        }
    }

    /// The handle of a node's parent; `None` for the root.
    pub fn parent(&self, node: usize) -> (r: Option<usize>)
        requires
            node < self.nodes@.len(),
        ensures
            r == self.nodes@[node as int].spec_parent(),
    {
        match &self.nodes[node] {
            TreeNode::Root(_) => None,
            TreeNode::Tag(t) => t.parent,
            TreeNode::Account(a) => Some(a.parent),
        }
    }

    /// The handles of a node's children, in insertion order.
    pub fn children(&self, node: usize) -> (r: &Vec<usize>)
        requires
            node < self.nodes@.len(),
        ensures
            r@ == self.nodes@[node as int].spec_children(),
    {
        match &self.nodes[node] {
            TreeNode::Root(n) => &n.children,
            TreeNode::Tag(t) => &t.children,
            TreeNode::Account(a) => &a.children,
        }
    }

    /// The primary account type a node resolves to, if any.
    pub fn account_type(&self, node: usize) -> (r: Option<&PrimaryAccountType>)
        requires
            node < self.nodes@.len(),
        ensures
            match r {
                Some(t) => self.nodes@[node as int].spec_account_type() == Some(*t),
                None => self.nodes@[node as int].spec_account_type() is None,
            },
    {
        match &self.nodes[node] {
            TreeNode::Root(_) => None,
            TreeNode::Tag(t) => Some(&t.account_type),
            TreeNode::Account(a) => a.account_type.as_ref(),
        }
    }

    /// Overwrites the amount stored at a node.
    pub fn set_amount(&mut self, node: usize, amount: i64)
        requires
            old(self).wf(),
            node < old(self).nodes@.len(),
        ensures
            final(self).wf(),
            final(self).nodes@ == old(self).nodes@.update(
                node as int,
                old(self).nodes@[node as int].with_amount(amount),
            ),
            same_structure(old(self).nodes@, final(self).nodes@),
    {
        match &mut self.nodes[node] {
            TreeNode::Root(n) => n.amount = amount,
            TreeNode::Tag(t) => t.amount = amount,
            TreeNode::Account(a) => a.amount = amount,
        }
        proof {
            assert(self.nodes@ =~= old(self).nodes@.update(
                node as int,
                old(self).nodes@[node as int].with_amount(amount),
            ));
            assert(same_structure(old(self).nodes@, self.nodes@));
            lemma_wf_same_structure(old(self).nodes@, self.nodes@);
        }
    }
}

/// A successful walk ends inside the arena, on a node at level one, and never
/// past its starting point.
pub proof fn lemma_walk_in_range(nodes: Seq<TreeNode>, i: int)
    requires
        level_one_ancestor_from(nodes, i) is Some,
    ensures
        match level_one_ancestor_from(nodes, i) {
            Some(a) => 0 <= a <= i && a < nodes.len() && nodes[a].spec_level() == 1,
            None => false,
        },
    decreases i,
{
    if 0 <= i < nodes.len() && nodes[i].spec_level() != 1 {
        match nodes[i].spec_parent() {
            Some(p) => {
                if (p as int) < i {
                    lemma_walk_in_range(nodes, p as int);
                }
            },
            None => {},
        }
    }
}

/// Two node arenas that agree on every node's level and parent; walks to the
/// nearest level-one node cannot tell them apart.
pub open spec fn levels_parents_eq(a: Seq<TreeNode>, b: Seq<TreeNode>) -> bool {
    &&& a.len() == b.len()
    &&& forall|j: int|
        0 <= j < a.len() ==> a[j].spec_level() == #[trigger] b[j].spec_level()
            && a[j].spec_parent() == b[j].spec_parent()
}

/// A walk to the nearest level-one node only reads levels and parents, so it
/// is the same over two arenas that agree on those.
pub proof fn lemma_walk_same_structure(a: Seq<TreeNode>, b: Seq<TreeNode>, i: int)
    requires
        levels_parents_eq(a, b),
    ensures
        level_one_ancestor_from(a, i) == level_one_ancestor_from(b, i),
    decreases i,
{
    if 0 <= i < a.len() {
        if a[i].spec_level() != 1 {
            match a[i].spec_parent() {
                Some(p) => {
                    if (p as int) < i {
                        lemma_walk_same_structure(a, b, p as int);
                    }
                },
                None => {},
            }
        }
    }
}

/// Well-formedness only reads structure, never amounts, so it carries over
/// between two arenas with the same structure.
pub proof fn lemma_wf_same_structure(a: Seq<TreeNode>, b: Seq<TreeNode>)
    requires
        same_structure(a, b),
        forall|i: int| 0 <= i < a.len() ==> wf_node_at(a, i),
    ensures
        forall|i: int| 0 <= i < b.len() ==> wf_node_at(b, i),
{
    assert forall|j: int|
        0 <= j < a.len() implies a[j].spec_level() == #[trigger] b[j].spec_level()
            && a[j].spec_parent() == b[j].spec_parent() by {
        assert(node_shape_eq(a[j], b[j]));
    }
    assert(levels_parents_eq(a, b));
    assert forall|i: int| 0 <= i < b.len() implies wf_node_at(b, i) by {
        assert(wf_node_at(a, i));
        assert(node_shape_eq(a[i], b[i]));
        match a[i].spec_parent() {
            Some(p) => {
                if 0 <= (p as int) < i {
                    assert(node_shape_eq(a[p as int], b[p as int]));
                    lemma_walk_same_structure(a, b, p as int);
                    match level_one_ancestor_from(a, p as int) {
                        Some(anc) => {
                            lemma_walk_in_range(a, p as int);
                            assert(node_shape_eq(a[anc], b[anc]));
                        },
                        None => {},
                    }
                }
            },
            None => {},
        }
        assert(wf_type_at(b, i));
        assert forall|k: int| 0 <= k < b[i].spec_children().len() implies {
            let c = #[trigger] b[i].spec_children()[k];
            &&& i < (c as int) < b.len()
            &&& b[c as int].spec_parent() == Some(i as usize)
        } by {
            let c = b[i].spec_children()[k];
            assert(a[i].spec_children()[k] == c);
            assert(node_shape_eq(a[c as int], b[c as int]));
        }
    }
}

/// Walks to the nearest level-one node are unaffected by appending a node at
/// the end of the arena.
pub proof fn lemma_walk_push_stable(nodes: Seq<TreeNode>, x: TreeNode, i: int)
    requires
        0 <= i < nodes.len(),
    ensures
        level_one_ancestor_from(nodes.push(x), i) == level_one_ancestor_from(nodes, i),
    decreases i,
{
    if nodes[i].spec_level() != 1 {
        match nodes[i].spec_parent() {
            Some(p) => {
                if (p as int) < i {
                    lemma_walk_push_stable(nodes, x, p as int);
                }
            },
            None => {},
        }
    }
}

/// The outcome of constructing a tag node: the primary account type the node
/// will carry, or the exact construction error.
pub open spec fn spec_new_tag(
    nodes: Seq<TreeNode>,
    level: usize,
    parent: Option<usize>,
    account_type: Option<PrimaryAccountType>,
) -> Result<PrimaryAccountType, AccountingError> {
    if level < 1 {
        Err(AccountingError::InvalidLevel { level })
    } else if level > 1 {
        match parent {
            None => Err(AccountingError::MissingParent),
            Some(p) => if p >= nodes.len() {
                Err(AccountingError::MissingParent)
            } else {
                match level_one_ancestor_from(nodes, p as int) {
                    None => Err(AccountingError::NoLevelOneAncestor),
                    Some(a) => match nodes[a].spec_account_type() {
                        None => Err(AccountingError::MissingAccountType),
                        Some(t) => Ok(t),
                    },
                }
            },
        }
    } else {
        match account_type {
            None => Err(AccountingError::MissingAccountType),
            Some(t) => match parent {
                Some(p) => if p >= nodes.len() {
                    Err(AccountingError::MissingParent)
                } else {
                    Ok(t)
                },
                None => Ok(t),
            },
        }
    }
}

/// The outcome of constructing an account node: the primary account type
/// inherited from the parent, or the exact construction error.
pub open spec fn spec_new_account(
    nodes: Seq<TreeNode>,
    parent: Option<usize>,
) -> Result<Option<PrimaryAccountType>, AccountingError> {
    match parent {
        None => Err(AccountingError::MissingParent),
        Some(p) => if p >= nodes.len() {
            Err(AccountingError::MissingParent)
        } else {
            Ok(nodes[p as int].spec_account_type())
        },
    }
}

/// Whether `child` can be attached under `parent`: both handles are in the
/// arena, the parent can hold children, the child was constructed with this
/// parent, and it is not attached yet.
pub open spec fn spec_can_attach(nodes: Seq<TreeNode>, parent: int, child: int) -> bool {
    &&& 0 <= parent < nodes.len()
    &&& 0 <= child < nodes.len()
    &&& !(nodes[parent] is Account)
    &&& nodes[child].spec_parent() == Some(parent as usize)
    &&& !nodes[parent].spec_children().contains(child as usize)
}

/// Attaching a constructed child under its parent keeps the arena well
/// formed.
pub proof fn lemma_wf_after_attach(a: Seq<TreeNode>, b: Seq<TreeNode>, parent: int, child: int)
    requires
        a.len() <= usize::MAX,
        forall|i: int| 0 <= i < a.len() ==> wf_node_at(a, i),
        spec_can_attach(a, parent, child),
        a.len() == b.len(),
        forall|i: int| 0 <= i < a.len() && i != parent ==> a[i] == #[trigger] b[i],
        a[parent].child_appended(b[parent], child as usize),
    ensures
        forall|i: int| 0 <= i < b.len() ==> wf_node_at(b, i),
{
    assert forall|j: int|
        0 <= j < a.len() implies a[j].spec_level() == #[trigger] b[j].spec_level()
            && a[j].spec_parent() == b[j].spec_parent()
            && a[j].spec_account_type() == b[j].spec_account_type() by {}
    assert(levels_parents_eq(a, b));
    assert forall|i: int| 0 <= i < b.len() implies wf_node_at(b, i) by {
        assert(wf_node_at(a, i));
        match a[i].spec_parent() {
            Some(p) => {
                if 0 <= (p as int) < i {
                    lemma_walk_same_structure(a, b, p as int);
                    match level_one_ancestor_from(a, p as int) {
                        Some(anc) => {
                            lemma_walk_in_range(a, p as int);
                        },
                        None => {},
                    }
                }
            },
            None => {},
        }
        assert(wf_type_at(b, i));
        if i == parent {
            let cs = a[parent].spec_children();
            let cs1 = b[parent].spec_children();
            assert(cs1 == cs.push(child as usize));
            assert(wf_node_at(a, child));
            assert((a[child].spec_parent() == Some(parent as usize)) ==> parent < child);
            assert forall|k: int| 0 <= k < cs1.len() implies {
                let c = #[trigger] cs1[k];
                &&& i < (c as int) < b.len()
                &&& b[c as int].spec_parent() == Some(i as usize)
            } by {
                if k < cs.len() {
                    assert(cs1[k] == cs[k]);
                } else {
                    assert(cs1[k] == child as usize);
                }
            }
            assert forall|k1: int, k2: int|
                0 <= k1 < k2 < cs1.len() implies #[trigger] cs1[k1] != #[trigger] cs1[k2] by {
                if k2 < cs.len() {
                    assert(cs1[k1] == cs[k1] && cs1[k2] == cs[k2]);
                } else {
                    assert(cs1[k2] == child as usize);
                    assert(cs1[k1] == cs[k1]);
                    assert(cs.contains(cs[k1]));
                }
            }
        } else {
            assert(b[i].spec_children() == a[i].spec_children());
        }
    }
}

impl AccountTagNode {
    /// Constructs a tag node in the tree's arena and returns its handle.
    /// The node is not attached to its parent's child list; callers attach it
    /// with [`AccountTree::add_child`].
    ///
    /// A node below level one is refused.  A level-one node must be given a
    /// primary account type.  A deeper node must be given a parent; its type
    /// is resolved once, here, by walking ancestors up to the nearest
    /// level-one node, and the walk fails on a malformed chain.
    pub fn new(
        tree: &mut AccountTree,
        level: usize,
        name: &str,
        parent: Option<usize>,
        account_type: Option<PrimaryAccountType>,
    ) -> (r: Result<usize, AccountingError>)
        requires
            old(tree).wf(),
        ensures
            final(tree).wf(),
            match spec_new_tag(old(tree).nodes@, level, parent, account_type) {
                Err(e) => r == Err::<usize, AccountingError>(e) && *final(tree) == *old(tree),
                Ok(t) => {
                    let n = final(tree).nodes@.last();
                    &&& r == Ok::<usize, AccountingError>(old(tree).nodes@.len() as usize)
                    &&& final(tree).nodes@ == old(tree).nodes@.push(n)
                    &&& n is Tag
                    &&& n.spec_level() == level
                    &&& n.spec_name() == name@
                    &&& n.spec_parent() == parent
                    &&& n.spec_children() == Seq::<usize>::empty()
                    &&& n.spec_amount() == 0
                    &&& n.spec_account_type() == Some(t)
                },
            },
    {
        if level < 1 {
            return Err(AccountingError::InvalidLevel { level });
        }
        let resolved: PrimaryAccountType;
        if level > 1 {
            let p = match parent {
                None => {
                    return Err(AccountingError::MissingParent);
                },
                Some(p) => p,
            };
            if p >= tree.node_count() {
                return Err(AccountingError::MissingParent);
            }
            let mut cur: usize = p;
            let mut lvl = tree.level(cur);
            while lvl != 1
                invariant
                    *tree == *old(tree),
                    tree.wf(),
                    level > 1,
                    parent == Some(p),
                    p < tree.nodes@.len(),
                    cur < tree.nodes@.len(),
                    lvl as nat == tree.nodes@[cur as int].spec_level(),
                    level_one_ancestor_from(tree.nodes@, p as int) == level_one_ancestor_from(
                        tree.nodes@,
                        cur as int,
                    ),
                decreases cur,
            {
                proof {
                    assert(wf_node_at(tree.nodes@, cur as int));
                }
                match tree.parent(cur) {
                    None => {
                        return Err(AccountingError::NoLevelOneAncestor);
                    },
                    Some(q) => {
                        cur = q;
                    },
                }
                lvl = tree.level(cur);
            }
            proof {
                assert(level_one_ancestor_from(tree.nodes@, cur as int) == Some(cur as int));
            }
            resolved = match tree.account_type(cur) {
                None => {
                    return Err(AccountingError::MissingAccountType);
                },
                Some(t) => t.clone(),
            };
        } else {
            resolved = match account_type {
                None => {
                    return Err(AccountingError::MissingAccountType);
                },
                Some(t) => t,
            };
            match parent {
                Some(p) => {
                    if p >= tree.node_count() {
                        return Err(AccountingError::MissingParent);
                    }
                },
                None => {},
            }
        }
        let node = TreeNode::Tag(AccountTagNode {
            level,
            name: name.to_owned(),
            parent,
            children: Vec::new(),
            account_type: resolved,
            amount: 0,
        });
        let ghost pre = tree.nodes@;
        tree.nodes.push(node);
        proof {
            let post = tree.nodes@;
            let ni = pre.len() as int;
            assert forall|i: int| 0 <= i < post.len() implies wf_node_at(post, i) by {
                if i < ni {
                    lemma_wf_push_stable(pre, post.last(), i);
                } else {
                    if level > 1 {
                        match parent {
                            Some(p) => {
                                lemma_walk_push_stable(pre, post.last(), p as int);
                                lemma_walk_in_range(pre, p as int);
                            },
                            None => {},
                        }
                    }
                    assert(wf_type_at(post, i));
                }
            }
        }
        Ok(tree.node_count() - 1)
    }
}

impl AccountNode {
    /// Constructs a terminal account node in the tree's arena and returns its
    /// handle.  The node needs a parent and inherits the parent's primary
    /// account type directly: the parent has already resolved its own type,
    /// or is itself at level one.  The node is not attached to its parent's
    /// child list; callers attach it with [`AccountTree::add_child`].
    pub fn new(
        tree: &mut AccountTree,
        level: usize,
        name: &str,
        parent: Option<usize>,
    ) -> (r: Result<usize, AccountingError>)
        requires
            old(tree).wf(),
        ensures
            final(tree).wf(),
            match spec_new_account(old(tree).nodes@, parent) {
                Err(e) => r == Err::<usize, AccountingError>(e) && *final(tree) == *old(tree),
                Ok(ty) => {
                    let n = final(tree).nodes@.last();
                    &&& r == Ok::<usize, AccountingError>(old(tree).nodes@.len() as usize)
                    &&& final(tree).nodes@ == old(tree).nodes@.push(n)
                    &&& n is Account
                    &&& n.spec_level() == level
                    &&& n.spec_name() == name@
                    &&& n.spec_parent() == parent
                    &&& n.spec_children() == Seq::<usize>::empty()
                    &&& n.spec_amount() == 0
                    &&& n.spec_account_type() == ty
                },
            },
    {
        let p = match parent {
            None => {
                return Err(AccountingError::MissingParent);
            },
            Some(p) => p,
        };
        if p >= tree.node_count() {
            return Err(AccountingError::MissingParent);
        }
        let inherited: Option<PrimaryAccountType> = match tree.account_type(p) {
            None => None,
            Some(t) => Some(t.clone()),
        };
        let node = TreeNode::Account(AccountNode {
            level,
            name: name.to_owned(),
            parent: p,
            children: Vec::new(),
            account_type: inherited,
            amount: 0,
        });
        let ghost pre = tree.nodes@;
        tree.nodes.push(node);
        proof {
            let post = tree.nodes@;
            assert forall|i: int| 0 <= i < post.len() implies wf_node_at(post, i) by {
                if i < pre.len() {
                    lemma_wf_push_stable(pre, post.last(), i);
                } else {
                    assert(wf_type_at(post, i));
                }
            }
        }
        Ok(tree.node_count() - 1)
    }
}

impl AccountTree {
    /// Appends `child` to `parent`'s child list.  The attachment is refused
    /// — the tree is left unchanged and `false` comes back — when either
    /// handle is not in the tree, when the child was constructed with a
    /// different parent or is already attached, and when the parent is a
    /// terminal account node, which may not have children.
    pub fn add_child(&mut self, parent: usize, child: usize) -> (added: bool)
        requires
            old(self).wf(),
        ensures
            final(self).wf(),
            added == spec_can_attach(old(self).nodes@, parent as int, child as int),
            added ==> {
                &&& final(self).nodes@.len() == old(self).nodes@.len()
                &&& (forall|i: int|
                    0 <= i < old(self).nodes@.len() && i != parent as int
                        ==> old(self).nodes@[i] == #[trigger] final(self).nodes@[i])
                &&& old(self).nodes@[parent as int].child_appended(
                    final(self).nodes@[parent as int],
                    child,
                )
            },
            !added ==> *final(self) == *old(self),
    {
        if parent >= self.node_count() || child >= self.node_count() {
            return false;
        }
        match &self.nodes[parent] {
            TreeNode::Account(_) => {
                return false;
            },
            _ => {},
        }
        match self.parent(child) {
            None => {
                return false;
            },
            Some(q) => {
                if q != parent {
                    return false;
                }
            },
        }
        if contains_handle(self.children(parent), child) {
            return false;
        }
        let ghost pre = self.nodes@;
        match &mut self.nodes[parent] {
            TreeNode::Root(n) => n.children.push(child),
            TreeNode::Tag(t) => t.children.push(child),
            TreeNode::Account(_) => {},
        }
        proof {
            lemma_wf_after_attach(pre, self.nodes@, parent as int, child as int);
        }
        true
    }
}

/// Whether a vector of node handles contains the given handle.
fn contains_handle(v: &Vec<usize>, x: usize) -> (r: bool)
    ensures
        r == v@.contains(x),
{
    let mut k: usize = 0;
    while k < v.len()
        invariant
            k <= v@.len(),
            forall|m: int| 0 <= m < k ==> v@[m] != x,
        decreases v@.len() - k,
    {
        if v[k] == x {
            return true;
        }
        k += 1;
    }
    false
}

/// Well-formedness of existing nodes is unaffected by appending a node at
/// the end of the arena.
pub proof fn lemma_wf_push_stable(nodes: Seq<TreeNode>, x: TreeNode, i: int)
    requires
        0 <= i < nodes.len(),
        wf_node_at(nodes, i),
    ensures
        wf_node_at(nodes.push(x), i),
{
    let ext = nodes.push(x);
    match nodes[i].spec_parent() {
        Some(p) => {
            if 0 <= (p as int) < i {
                lemma_walk_push_stable(nodes, x, p as int);
                match level_one_ancestor_from(nodes, p as int) {
                    Some(anc) => {
                        lemma_walk_in_range(nodes, p as int);
                        assert(ext[anc] == nodes[anc]);
                    },
                    None => {},
                }
            }
        },
        None => {},
    }
    assert(wf_type_at(ext, i));
    assert forall|k: int| 0 <= k < ext[i].spec_children().len() implies {
        let c = #[trigger] ext[i].spec_children()[k];
        &&& i < (c as int) < ext.len()
        &&& ext[c as int].spec_parent() == Some(i as usize)
    } by {
        assert(nodes[i].spec_children()[k] == ext[i].spec_children()[k]);
    }
}

/// The code point of a character with an ASCII capital letter lowered.
pub open spec fn lower_code(c: char) -> int {
    if 65 <= c as u32 && c as u32 <= 90 {
        c as u32 + 32
    } else {
        c as u32 as int
    }
}

/// Case-insensitive (ASCII) equality of two names.
pub open spec fn names_match(a: Seq<char>, b: Seq<char>) -> bool {
    &&& a.len() == b.len()
    &&& forall|i: int| 0 <= i < a.len() ==> lower_code(a[i]) == lower_code(#[trigger] b[i])
}

/// Whether `j` lies in the subtree rooted at `i`, following child lists.
pub open spec fn in_subtree(nodes: Seq<TreeNode>, i: int, j: int) -> bool
    decreases nodes.len() - i, 1int, 0int,
{
    if 0 <= i < nodes.len() {
        i == j || subtree_of_children(nodes, i, 0, j)
    } else {
        false
    }
}

/// Whether `j` lies in the subtree of one of the children of `i` from
/// position `k` on.
pub open spec fn subtree_of_children(nodes: Seq<TreeNode>, i: int, k: int, j: int) -> bool
    decreases nodes.len() - i, 0int, nodes[i].spec_children().len() - k,
{
    if 0 <= i < nodes.len() && 0 <= k < nodes[i].spec_children().len() {
        let c = nodes[i].spec_children()[k] as int;
        (i < c < nodes.len() && in_subtree(nodes, c, j)) || subtree_of_children(
            nodes,
            i,
            k + 1,
            j,
        )
    } else {
        false
    }
}

/// The post-order total of the subtree rooted at `i`: the node's own amount
/// plus the totals of its children's subtrees, in child-list order.
pub open spec fn subtree_total(nodes: Seq<TreeNode>, i: int) -> int
    decreases nodes.len() - i, 1int, 0int,
{
    if 0 <= i < nodes.len() {
        nodes[i].spec_amount() + children_total(nodes, i, 0)
    } else {
        0
    }
}

/// The sum of the subtree totals of the children of `i` from position `k` on.
pub open spec fn children_total(nodes: Seq<TreeNode>, i: int, k: int) -> int
    decreases nodes.len() - i, 0int, nodes[i].spec_children().len() - k,
{
    if 0 <= i < nodes.len() && 0 <= k < nodes[i].spec_children().len() {
        let c = nodes[i].spec_children()[k] as int;
        (if i < c < nodes.len() {
            subtree_total(nodes, c)
        } else {
            0
        }) + children_total(nodes, i, k + 1)
    } else {
        0
    }
}

/// The sum of the amounts of the leaves of the subtree rooted at `i`.
pub open spec fn leaf_total(nodes: Seq<TreeNode>, i: int) -> int
    decreases nodes.len() - i, 1int, 0int,
{
    if 0 <= i < nodes.len() {
        if nodes[i].spec_children().len() == 0 {
            nodes[i].spec_amount() as int
        } else {
            children_leaf_total(nodes, i, 0)
        }
    } else {
        0
    }
}

/// The sum of the leaf totals of the children of `i` from position `k` on.
pub open spec fn children_leaf_total(nodes: Seq<TreeNode>, i: int, k: int) -> int
    decreases nodes.len() - i, 0int, nodes[i].spec_children().len() - k,
{
    if 0 <= i < nodes.len() && 0 <= k < nodes[i].spec_children().len() {
        let c = nodes[i].spec_children()[k] as int;
        (if i < c < nodes.len() {
            leaf_total(nodes, c)
        } else {
            0
        }) + children_leaf_total(nodes, i, k + 1)
    } else {
        0
    }
}

/// The first node in the subtree of `i`, in pre-order and child-list order,
/// whose name equals `query` up to ASCII case; `None` when there is none.
pub open spec fn dfs_find(nodes: Seq<TreeNode>, i: int, query: Seq<char>) -> Option<int>
    decreases nodes.len() - i, 1int, 0int,
{
    if 0 <= i < nodes.len() {
        if names_match(nodes[i].spec_name(), query) {
            Some(i)
        } else {
            dfs_find_children(nodes, i, 0, query)
        }
    } else {
        None
    }
}

/// The first match for `query` in the subtrees of the children of `i` from
/// position `k` on.
pub open spec fn dfs_find_children(nodes: Seq<TreeNode>, i: int, k: int, query: Seq<char>) -> Option<
    int,
>
    decreases nodes.len() - i, 0int, nodes[i].spec_children().len() - k,
{
    if 0 <= i < nodes.len() && 0 <= k < nodes[i].spec_children().len() {
        let c = nodes[i].spec_children()[k] as int;
        let sub = if i < c < nodes.len() {
            dfs_find(nodes, c, query)
        } else {
            None
        };
        match sub {
            Some(r) => Some(r),
            None => dfs_find_children(nodes, i, k + 1, query),
        }
    } else {
        None
    }
}

/// Whether a mathematical integer is representable as an `i64`.
pub open spec fn in_i64(x: int) -> bool {
    i64::MIN <= x <= i64::MAX
}

/// Every partial accumulator that a post-order aggregation of the subtree at
/// `i` computes is representable as an `i64`.  The accumulator of node `j`
/// after its first `k` children equals the subtree total minus the total of
/// the remaining children.
pub open spec fn agg_ok(nodes: Seq<TreeNode>, i: int) -> bool {
    forall|j: int, k: int|
        in_subtree(nodes, i, j) && 0 <= k <= nodes[j].spec_children().len() ==> in_i64(
            subtree_total(nodes, j) - #[trigger] children_total(nodes, j, k),
        )
}

/// Whether the subtree of the `m`-th child of `i` contains `j`.
pub open spec fn child_subtree_contains(nodes: Seq<TreeNode>, i: int, m: int, j: int) -> bool {
    &&& 0 <= m < nodes[i].spec_children().len()
    &&& i < (nodes[i].spec_children()[m] as int) < nodes.len()
    &&& in_subtree(nodes, nodes[i].spec_children()[m] as int, j)
}

/// Whether `j` lies in the subtree of one of the first `k` children of `i`.
pub open spec fn in_children_prefix(nodes: Seq<TreeNode>, i: int, k: int, j: int) -> bool {
    exists|m: int| m < k && #[trigger] child_subtree_contains(nodes, i, m, j)
}

/// Two node arenas with identical child lists everywhere; subtree membership
/// cannot tell them apart.
pub open spec fn children_eq(a: Seq<TreeNode>, b: Seq<TreeNode>) -> bool {
    &&& a.len() == b.len()
    &&& forall|j: int| 0 <= j < a.len() ==> a[j].spec_children() == #[trigger] b[j].spec_children()
}

/// A subtree member's index is bounded by its root's index and the arena
/// length.
pub proof fn lemma_in_subtree_bounds(nodes: Seq<TreeNode>, i: int, j: int)
    requires
        in_subtree(nodes, i, j),
    ensures
        0 <= i <= j < nodes.len(),
    decreases nodes.len() - i, 1int, 0int,
{
    if i != j {
        lemma_soc_bounds(nodes, i, 0, j);
    }
}

proof fn lemma_soc_bounds(nodes: Seq<TreeNode>, i: int, k: int, j: int)
    requires
        subtree_of_children(nodes, i, k, j),
    ensures
        0 <= i < j < nodes.len(),
    decreases nodes.len() - i, 0int, nodes[i].spec_children().len() - k,
{
    let c = nodes[i].spec_children()[k] as int;
    if i < c < nodes.len() && in_subtree(nodes, c, j) {
        lemma_in_subtree_bounds(nodes, c, j);
    } else {
        lemma_soc_bounds(nodes, i, k + 1, j);
    }
}

/// Membership in a child's subtree from position `k` on also holds from any
/// earlier position.
pub proof fn lemma_soc_mono(nodes: Seq<TreeNode>, i: int, k: int, m: int, j: int)
    requires
        subtree_of_children(nodes, i, k, j),
        0 <= m <= k,
    ensures
        subtree_of_children(nodes, i, m, j),
    decreases k - m,
{
    if m < k {
        lemma_soc_mono(nodes, i, k, m + 1, j);
        lemma_soc_bounds(nodes, i, m + 1, j);
    }
}

/// A member of a child's subtree is a member of the parent's subtree.
pub proof fn lemma_member_via_child(nodes: Seq<TreeNode>, i: int, k: int, j: int)
    requires
        0 <= i < nodes.len(),
        0 <= k < nodes[i].spec_children().len(),
        i < nodes[i].spec_children()[k] < nodes.len(),
        in_subtree(nodes, nodes[i].spec_children()[k] as int, j),
    ensures
        in_subtree(nodes, i, j),
{
    assert(subtree_of_children(nodes, i, k, j));
    lemma_soc_mono(nodes, i, k, 0, j);
}

/// Subtree membership is transitive.
pub proof fn lemma_in_subtree_trans(nodes: Seq<TreeNode>, i: int, j: int, l: int)
    requires
        in_subtree(nodes, i, j),
        in_subtree(nodes, j, l),
    ensures
        in_subtree(nodes, i, l),
    decreases nodes.len() - i, 1int, 0int,
{
    if i != j {
        lemma_soc_trans(nodes, i, 0, j, l);
        lemma_soc_mono(nodes, i, 0, 0, l);
    }
}

proof fn lemma_soc_trans(nodes: Seq<TreeNode>, i: int, k: int, j: int, l: int)
    requires
        subtree_of_children(nodes, i, k, j),
        in_subtree(nodes, j, l),
    ensures
        subtree_of_children(nodes, i, k, l),
    decreases nodes.len() - i, 0int, nodes[i].spec_children().len() - k,
{
    let c = nodes[i].spec_children()[k] as int;
    if i < c < nodes.len() && in_subtree(nodes, c, j) {
        lemma_in_subtree_trans(nodes, c, j, l);
    } else {
        lemma_soc_trans(nodes, i, k + 1, j, l);
    }
}

/// A member of a subtree below position `k` yields a witness child.
pub proof fn lemma_soc_witness(nodes: Seq<TreeNode>, i: int, k: int, j: int)
    requires
        subtree_of_children(nodes, i, k, j),
    ensures
        exists|m: int|
            k <= m < nodes[i].spec_children().len() && {
                let c = #[trigger] nodes[i].spec_children()[m] as int;
                i < c < nodes.len() && in_subtree(nodes, c, j)
            },
    decreases nodes.len() - i, 0int, nodes[i].spec_children().len() - k,
{
    let c = nodes[i].spec_children()[k] as int;
    if i < c < nodes.len() && in_subtree(nodes, c, j) {
        assert(nodes[i].spec_children()[k] == nodes[i].spec_children()[k]);
    } else {
        lemma_soc_witness(nodes, i, k + 1, j);
    }
}

/// In a well-formed arena, a strict subtree member has a parent that is also
/// in the subtree, and sits in that parent's child list.
pub proof fn lemma_in_subtree_parent(nodes: Seq<TreeNode>, i: int, j: int)
    requires
        nodes.len() <= usize::MAX,
        forall|t: int| 0 <= t < nodes.len() ==> wf_node_at(nodes, t),
        in_subtree(nodes, i, j),
        i != j,
    ensures
        match nodes[j].spec_parent() {
            Some(p) => in_subtree(nodes, i, p as int) && nodes[p as int].spec_children().contains(
                j as usize,
            ),
            None => false,
        },
    decreases nodes.len() - i, 1int, 0int,
{
    lemma_soc_parent(nodes, i, 0, j);
}

proof fn lemma_soc_parent(nodes: Seq<TreeNode>, i: int, k: int, j: int)
    requires
        nodes.len() <= usize::MAX,
        forall|t: int| 0 <= t < nodes.len() ==> wf_node_at(nodes, t),
        subtree_of_children(nodes, i, k, j),
    ensures
        match nodes[j].spec_parent() {
            Some(p) => in_subtree(nodes, i, p as int) && nodes[p as int].spec_children().contains(
                j as usize,
            ),
            None => false,
        },
    decreases nodes.len() - i, 0int, nodes[i].spec_children().len() - k,
{
    let c = nodes[i].spec_children()[k] as int;
    if i < c < nodes.len() && in_subtree(nodes, c, j) {
        if j == c {
            assert(wf_node_at(nodes, i));
            assert(nodes[j].spec_parent() == Some(i as usize));
            assert(nodes[i].spec_children()[k] == j as usize);
            assert(nodes[i].spec_children().contains(j as usize));
        } else {
            lemma_in_subtree_parent(nodes, c, j);
            match nodes[j].spec_parent() {
                Some(p) => {
                    lemma_member_via_child(nodes, i, k, p as int);
                },
                None => {},
            }
        }
    } else {
        lemma_soc_parent(nodes, i, k + 1, j);
    }
}

/// In a well-formed arena, the subtrees of two distinct children of the same
/// node are disjoint.
pub proof fn lemma_sibling_subtrees_disjoint(
    nodes: Seq<TreeNode>,
    i: int,
    k1: int,
    k2: int,
    j: int,
)
    requires
        nodes.len() <= usize::MAX,
        forall|t: int| 0 <= t < nodes.len() ==> wf_node_at(nodes, t),
        0 <= i < nodes.len(),
        0 <= k1 < nodes[i].spec_children().len(),
        0 <= k2 < nodes[i].spec_children().len(),
        k1 != k2,
    ensures
        !(in_subtree(nodes, nodes[i].spec_children()[k1] as int, j) && in_subtree(
            nodes,
            nodes[i].spec_children()[k2] as int,
            j,
        )),
    decreases (if j >= 0 { j } else { 0 }),
{
    let c1 = nodes[i].spec_children()[k1] as int;
    let c2 = nodes[i].spec_children()[k2] as int;
    if in_subtree(nodes, c1, j) && in_subtree(nodes, c2, j) {
        assert(wf_node_at(nodes, i));
        assert(c1 != c2);
        lemma_in_subtree_bounds(nodes, c1, j);
        lemma_in_subtree_bounds(nodes, c2, j);
        if j == c1 {
            lemma_in_subtree_parent(nodes, c2, j);
            assert(nodes[c1].spec_parent() == Some(i as usize));
            lemma_in_subtree_bounds(nodes, c2, i);
        } else if j == c2 {
            lemma_in_subtree_parent(nodes, c1, j);
            assert(nodes[c2].spec_parent() == Some(i as usize));
            lemma_in_subtree_bounds(nodes, c1, i);
        } else {
            lemma_in_subtree_parent(nodes, c1, j);
            lemma_in_subtree_parent(nodes, c2, j);
            match nodes[j].spec_parent() {
                Some(p) => {
                    assert(wf_node_at(nodes, j));
                    lemma_sibling_subtrees_disjoint(nodes, i, k1, k2, p as int);
                },
                None => {},
            }
        }
    }
}

/// Subtree membership only reads child lists, so it is the same over two
/// arenas with identical child lists.
pub proof fn lemma_in_subtree_children_eq(a: Seq<TreeNode>, b: Seq<TreeNode>, i: int, j: int)
    requires
        children_eq(a, b),
    ensures
        in_subtree(a, i, j) == in_subtree(b, i, j),
    decreases a.len() - i, 1int, 0int,
{
    if 0 <= i < a.len() {
        lemma_soc_children_eq(a, b, i, 0, j);
    }
}

proof fn lemma_soc_children_eq(a: Seq<TreeNode>, b: Seq<TreeNode>, i: int, k: int, j: int)
    requires
        children_eq(a, b),
        0 <= i < a.len(),
    ensures
        subtree_of_children(a, i, k, j) == subtree_of_children(b, i, k, j),
    decreases a.len() - i, 0int, a[i].spec_children().len() - k,
{
    if 0 <= k < a[i].spec_children().len() {
        let c = a[i].spec_children()[k] as int;
        if i < c < a.len() {
            lemma_in_subtree_children_eq(a, b, c, j);
        }
        lemma_soc_children_eq(a, b, i, k + 1, j);
    }
}

/// A subtree total depends only on child lists and on the amounts of the
/// subtree's members.
pub proof fn lemma_subtree_total_frame(a: Seq<TreeNode>, b: Seq<TreeNode>, i: int)
    requires
        children_eq(a, b),
        forall|j: int|
            in_subtree(a, i, j) ==> a[j].spec_amount() == #[trigger] b[j].spec_amount(),
    ensures
        subtree_total(a, i) == subtree_total(b, i),
    decreases a.len() - i, 1int, 0int,
{
    if 0 <= i < a.len() {
        assert(in_subtree(a, i, i));
        lemma_children_total_frame(a, b, i, 0);
    }
}

/// The children's part of [`lemma_subtree_total_frame`].
pub proof fn lemma_children_total_frame(a: Seq<TreeNode>, b: Seq<TreeNode>, i: int, k: int)
    requires
        children_eq(a, b),
        0 <= i < a.len(),
        forall|j: int|
            in_subtree(a, i, j) ==> a[j].spec_amount() == #[trigger] b[j].spec_amount(),
    ensures
        children_total(a, i, k) == children_total(b, i, k),
    decreases a.len() - i, 0int, a[i].spec_children().len() - k,
{
    if 0 <= k < a[i].spec_children().len() {
        let c = a[i].spec_children()[k] as int;
        if i < c < a.len() {
            assert forall|j: int|
                in_subtree(a, c, j) implies a[j].spec_amount()
                    == #[trigger] b[j].spec_amount() by {
                lemma_member_via_child(a, i, k, j);
            }
            lemma_subtree_total_frame(a, b, c);
        }
        lemma_children_total_frame(a, b, i, k + 1);
    }
}

/// Arenas with the same structure have identical child lists.
pub proof fn lemma_same_structure_children_eq(a: Seq<TreeNode>, b: Seq<TreeNode>)
    requires
        same_structure(a, b),
    ensures
        children_eq(a, b),
{
    assert forall|j: int|
        0 <= j < a.len() implies a[j].spec_children() == #[trigger] b[j].spec_children() by {
        assert(node_shape_eq(a[j], b[j]));
    }
}

/// Whether two names are equal up to ASCII case.
fn eq_ignore_case(a: &str, b: &str) -> (r: bool)
    ensures
        r == names_match(a@, b@),
{
    let alen = a.unicode_len();
    let blen = b.unicode_len();
    if alen != blen {
        return false;
    }
    let mut i: usize = 0;
    while i < alen
        invariant
            alen == a@.len(),
            blen == b@.len(),
            alen == blen,
            i <= alen,
            forall|m: int| 0 <= m < i ==> lower_code(a@[m]) == lower_code(#[trigger] b@[m]),
        decreases alen - i,
    {
        let ca = a.get_char(i) as u32;
        let cb = b.get_char(i) as u32;
        let la = if 65 <= ca && ca <= 90 {
            ca + 32
        } else {
            ca
        };
        let lb = if 65 <= cb && cb <= 90 {
            cb + 32
        } else {
            cb
        };
        if la != lb {
            return false;
        }
        i += 1;
    }
    true
}

/// Pre-order, case-insensitive, first-match name search over an accounting
/// tree.  The search holds the handle of the node it starts from.
#[derive(Debug)]
pub struct DFS {
    pub root: usize,
}

impl DFS {
    /// Creates a search rooted at the given node.
    pub fn new(root: usize) -> (r: DFS)
        ensures
            r.root == root,
    {
        DFS { root }
    }

    /// The handle the search starts from.
    pub fn root(&self) -> (r: usize)
        ensures
            r == self.root,
    {
        self.root
    }

    /// Moves the search to a new starting node.
    pub fn set_root(&mut self, root: usize)
        ensures
            final(self).root == root,
    {
        self.root = root;
    }

    /// Searches the subtree under the search's root, depth first and in
    /// pre-order, for the first node whose name equals `name` up to ASCII
    /// case.
    pub fn traverse(&mut self, tree: &AccountTree, name: &str) -> (r: Option<usize>)
        requires
            tree.wf(),
            old(self).root < tree.nodes@.len(),
        ensures
            *final(self) == *old(self),
            ({
                let found = dfs_find(tree.nodes@, old(self).root as int, name@);
                match r {
                    Some(u) => found == Some(u as int),
                    None => found is None,
                }
            }),
    {
        traverse_node(tree, self.root, name)
    }
}

/// The recursive worker behind [`DFS::traverse`].
fn traverse_node(tree: &AccountTree, node: usize, name: &str) -> (r: Option<usize>)
    requires
        tree.wf(),
        node < tree.nodes@.len(),
    ensures
        ({
            let found = dfs_find(tree.nodes@, node as int, name@);
            match r {
                Some(u) => found == Some(u as int),
                None => found is None,
            }
        }),
    decreases tree.nodes@.len() - node,
{
    if eq_ignore_case(tree.name(node), name) {
        return Some(node);
    }
    let n_children = tree.children(node).len();
    let mut k: usize = 0;
    while k < n_children
        invariant
            tree.wf(),
            node < tree.nodes@.len(),
            n_children == tree.nodes@[node as int].spec_children().len(),
            k <= n_children,
            !names_match(tree.nodes@[node as int].spec_name(), name@),
            dfs_find_children(tree.nodes@, node as int, 0, name@) == dfs_find_children(
                tree.nodes@,
                node as int,
                k as int,
                name@,
            ),
        decreases n_children - k,
    {
        proof {
            assert(wf_node_at(tree.nodes@, node as int));
        }
        let c = tree.children(node)[k];
        let res = traverse_node(tree, c, name);
        if let Some(found) = res {
            return Some(found);
        }
        k += 1;
    }
    None
}

impl AccountTree {
    /// Looks an account up by name: a pre-order, case-insensitive,
    /// first-match search from the tree's root.
    pub fn get_node_by_name(&self, name: &str) -> (r: Option<usize>)
        requires
            self.wf(),
        ensures
            ({
                let found = dfs_find(self.nodes@, 0, name@);
                match r {
                    Some(u) => found == Some(u as int),
                    None => found is None,
                }
            }),
    {
        let mut dfs = DFS::new(self.root());
        dfs.traverse(self, name)
    }
}

/// Sameness of structure is transitive.
pub proof fn lemma_same_structure_trans(a: Seq<TreeNode>, b: Seq<TreeNode>, c: Seq<TreeNode>)
    requires
        same_structure(a, b),
        same_structure(b, c),
    ensures
        same_structure(a, c),
{
    assert forall|i: int| 0 <= i < a.len() implies node_shape_eq(a[i], #[trigger] c[i]) by {
        assert(node_shape_eq(a[i], b[i]));
        assert(node_shape_eq(b[i], c[i]));
    }
}

/// Post-order aggregation of amounts over an accounting tree or a subtree of
/// it.  The structure holds the handle of the node the aggregation starts
/// from.
#[derive(Debug)]
pub struct AmountAggregator {
    pub root: usize,
}

impl AmountAggregator {
    /// Creates an aggregator rooted at the given node.
    pub fn new(root: usize) -> (r: AmountAggregator)
        ensures
            r.root == root,
    {
        AmountAggregator { root }
    }

    /// The handle the aggregation starts from.
    pub fn root(&self) -> (r: usize)
        ensures
            r == self.root,
    {
        self.root
    }

    /// Moves the aggregation to a new starting node.
    pub fn set_root(&mut self, root: usize)
        ensures
            final(self).root == root,
    {
        self.root = root;
    }

    /// Aggregates amounts post-order over the subtree under the aggregator's
    /// root and returns that root's handle.  Every node of the subtree ends
    /// up holding the total of its own prior amount plus its descendants'
    /// prior amounts; an already aggregated subtree is therefore counted
    /// again when the aggregation runs twice without the leaf amounts being
    /// re-derived in between.  Amounts outside the subtree are untouched.
    pub fn aggregate(&mut self, tree: &mut AccountTree) -> (r: usize)
        requires
            old(tree).wf(),
            old(self).root < old(tree).nodes@.len(),
            agg_ok(old(tree).nodes@, old(self).root as int),
        ensures
            *final(self) == *old(self),
            r == old(self).root,
            final(tree).wf(),
            same_structure(old(tree).nodes@, final(tree).nodes@),
            forall|j: int|
                0 <= j < old(tree).nodes@.len()
                    ==> #[trigger] final(tree).nodes@[j].spec_amount() as int == (if in_subtree(
                    old(tree).nodes@,
                    old(self).root as int,
                    j,
                ) {
                    subtree_total(old(tree).nodes@, j)
                } else {
                    old(tree).nodes@[j].spec_amount() as int
                }),
    {
        aggregate_node(tree, self.root);
        self.root
    }
}

/// The recursive worker behind [`AmountAggregator::aggregate`].
fn aggregate_node(tree: &mut AccountTree, node: usize)
    requires
        old(tree).wf(),
        node < old(tree).nodes@.len(),
        agg_ok(old(tree).nodes@, node as int),
    ensures
        final(tree).wf(),
        same_structure(old(tree).nodes@, final(tree).nodes@),
        forall|j: int|
            0 <= j < old(tree).nodes@.len()
                ==> #[trigger] final(tree).nodes@[j].spec_amount() as int == (if in_subtree(
                old(tree).nodes@,
                node as int,
                j,
            ) {
                subtree_total(old(tree).nodes@, j)
            } else {
                old(tree).nodes@[j].spec_amount() as int
            }),
    decreases old(tree).nodes@.len() - node,
{
    let ghost base = old(tree).nodes@;
    let total_nodes = tree.node_count();
    let n_children = tree.children(node).len();
    if n_children == 0 {
        proof {
            assert(children_total(base, node as int, 0) == 0);
            assert forall|j: int|
                0 <= j < base.len() implies #[trigger] tree.nodes@[j].spec_amount() as int == (
            if in_subtree(base, node as int, j) {
                subtree_total(base, j)
            } else {
                base[j].spec_amount() as int
            }) by {
                if in_subtree(base, node as int, j) && j != node as int {
                    assert(!subtree_of_children(base, node as int, 0, j));
                }
            }
        }
        return;
    }
    let mut acc: i64 = tree.amount(node);
    let mut k: usize = 0;
    proof {
        assert(in_subtree(base, node as int, node as int));
    }
    while k < n_children
        invariant
            tree.wf(),
            node < tree.nodes@.len(),
            base == old(tree).nodes@,
            base.len() <= usize::MAX,
            forall|t: int| 0 <= t < base.len() ==> wf_node_at(base, t),
            same_structure(base, tree.nodes@),
            n_children == base[node as int].spec_children().len(),
            k <= n_children,
            agg_ok(base, node as int),
            forall|j: int|
                0 <= j < base.len() ==> #[trigger] tree.nodes@[j].spec_amount() as int == (
            if in_children_prefix(base, node as int, k as int, j) {
                subtree_total(base, j)
            } else {
                base[j].spec_amount() as int
            }),
            acc as int == subtree_total(base, node as int) - children_total(
                base,
                node as int,
                k as int,
            ),
        decreases n_children - k,
    {
        proof {
            assert(wf_node_at(tree.nodes@, node as int));
            lemma_same_structure_children_eq(base, tree.nodes@);
            assert(node_shape_eq(base[node as int], tree.nodes@[node as int]));
        }
        let c = tree.children(node)[k];
        let ghost cur0 = tree.nodes@;
        proof {
            assert(wf_node_at(base, node as int));
            assert(base[node as int].spec_children()[k as int] == c);
            // Amounts inside the subtree of child `c` are still the base
            // amounts: earlier siblings' subtrees are disjoint from it.
            assert forall|j: int|
                in_subtree(base, c as int, j) implies base[j].spec_amount() == #[trigger] cur0[j].spec_amount() by {
                lemma_in_subtree_bounds(base, c as int, j);
                if in_children_prefix(base, node as int, k as int, j) {
                    let m = choose|m: int|
                        m < k && #[trigger] child_subtree_contains(base, node as int, m, j);
                    lemma_sibling_subtrees_disjoint(base, node as int, m, k as int, j);
                }
            }
            // The child's subtree still satisfies the accumulator bounds.
            assert forall|j: int, k2: int|
                in_subtree(cur0, c as int, j) && 0 <= k2 <= cur0[j].spec_children().len() implies
                in_i64(subtree_total(cur0, j) - #[trigger] children_total(cur0, j, k2)) by {
                lemma_in_subtree_children_eq(base, cur0, c as int, j);
                lemma_member_via_child(base, node as int, k as int, j);
                assert(in_i64(subtree_total(base, j) - children_total(base, j, k2)));
                assert forall|l: int|
                    in_subtree(base, j, l) implies base[l].spec_amount() == #[trigger] cur0[l].spec_amount() by {
                    lemma_in_subtree_trans(base, c as int, j, l);
                }
                lemma_in_subtree_bounds(base, c as int, j);
                lemma_subtree_total_frame(base, cur0, j);
                lemma_children_total_frame(base, cur0, j, k2);
            }
            assert(agg_ok(cur0, c as int));
        }
        aggregate_node(tree, c);
        let ghost cur1 = tree.nodes@;
        proof {
            lemma_same_structure_trans(base, cur0, cur1);
            lemma_same_structure_children_eq(base, cur0);
            // Totals over the child's subtree agree between the base arena
            // and the arena as it stood when the child was aggregated.
            assert forall|j: int| in_subtree(base, c as int, j) implies subtree_total(cur0, j)
                == #[trigger] subtree_total(base, j) by {
                assert forall|l: int|
                    in_subtree(base, j, l) implies base[l].spec_amount() == #[trigger] cur0[l].spec_amount() by {
                    lemma_in_subtree_trans(base, c as int, j, l);
                }
                lemma_in_subtree_bounds(base, c as int, j);
                lemma_subtree_total_frame(base, cur0, j);
            }
            // The invariant's amount map, one child further.
            assert forall|j: int|
                0 <= j < base.len() implies #[trigger] cur1[j].spec_amount() as int == (
            if in_children_prefix(base, node as int, (k + 1) as int, j) {
                subtree_total(base, j)
            } else {
                base[j].spec_amount() as int
            }) by {
                lemma_in_subtree_children_eq(base, cur0, c as int, j);
                if in_subtree(base, c as int, j) {
                    assert(cur1[j].spec_amount() as int == subtree_total(cur0, j));
                    assert(child_subtree_contains(base, node as int, k as int, j));
                    assert(in_children_prefix(base, node as int, (k + 1) as int, j));
                } else {
                    assert(cur1[j].spec_amount() == cur0[j].spec_amount());
                    if in_children_prefix(base, node as int, (k + 1) as int, j) {
                        let m = choose|m: int|
                            m < k + 1 && #[trigger] child_subtree_contains(
                                base,
                                node as int,
                                m,
                                j,
                            );
                        assert(m < k);
                        assert(in_children_prefix(base, node as int, k as int, j));
                    } else {
                        if in_children_prefix(base, node as int, k as int, j) {
                            let m = choose|m: int|
                                m < k && #[trigger] child_subtree_contains(
                                    base,
                                    node as int,
                                    m,
                                    j,
                                );
                            assert(child_subtree_contains(base, node as int, m, j));
                            assert(in_children_prefix(base, node as int, (k + 1) as int, j));
                        }
                    }
                }
            }
            // The amount now stored at the child is its base subtree total.
            assert(in_subtree(base, c as int, c as int));
            assert(cur1[c as int].spec_amount() as int == subtree_total(base, c as int));
            // One unfolding of the remaining-children total.
            assert(children_total(base, node as int, k as int) == subtree_total(base, c as int)
                + children_total(base, node as int, (k + 1) as int));
            // The next accumulator value stays within bounds.
            assert(in_subtree(base, node as int, node as int));
            assert(in_i64(subtree_total(base, node as int) - children_total(
                base,
                node as int,
                (k + 1) as int,
            )));
        }
        let ca = tree.amount(c);
        acc = acc + ca;
        k += 1;
    }
    proof {
        assert(children_total(base, node as int, n_children as int) == 0);
    }
    let ghost pre_set = tree.nodes@;
    tree.set_amount(node, acc);
    proof {
        lemma_same_structure_trans(base, pre_set, tree.nodes@);
        assert forall|j: int|
            0 <= j < base.len() implies #[trigger] tree.nodes@[j].spec_amount() as int == (
        if in_subtree(base, node as int, j) {
            subtree_total(base, j)
        } else {
            base[j].spec_amount() as int
        }) by {
            if j == node as int {
                assert(tree.nodes@[j].spec_amount() == acc);
                assert(in_subtree(base, node as int, node as int));
            } else {
                assert(tree.nodes@[j] == pre_set[j]);
                if in_subtree(base, node as int, j) {
                    lemma_soc_witness(base, node as int, 0, j);
                    let m = choose|m: int|
                        0 <= m < base[node as int].spec_children().len() && {
                            let cc = #[trigger] base[node as int].spec_children()[m] as int;
                            node < cc < base.len() && in_subtree(base, cc, j)
                        };
                    assert(child_subtree_contains(base, node as int, m, j));
                    assert(in_children_prefix(base, node as int, n_children as int, j));
                } else {
                    if in_children_prefix(base, node as int, n_children as int, j) {
                        let m = choose|m: int|
                            m < n_children && #[trigger] child_subtree_contains(
                                base,
                                node as int,
                                m,
                                j,
                            );
                        lemma_member_via_child(base, node as int, m, j);
                    }
                }
            }
        }
    }
}

/// Walks from a node towards the root, one parent per step.
#[derive(Debug)]
pub struct Ancestors {
    pub source: usize,
}

impl Ancestors {
    /// Creates a walk positioned at the given node.
    pub fn new(source: usize) -> (r: Ancestors)
        ensures
            r.source == source,
    {
        Ancestors { source }
    }

    /// Moves the walk to a new position.
    fn update_source(&mut self, source: usize)
        ensures
            final(self).source == source,
    {
        self.source = source;
    }

    /// Steps to the parent of the current node and returns its handle, or
    /// `None` once a parentless node is reached.
    pub fn next(&mut self, tree: &AccountTree) -> (r: Option<usize>)
        requires
            tree.wf(),
            old(self).source < tree.nodes@.len(),
        ensures
            match tree.nodes@[old(self).source as int].spec_parent() {
                Some(p) => r == Some(p) && final(self).source == p && p < old(self).source,
                None => r is None && *final(self) == *old(self),
            },
    {
        proof {
            assert(wf_node_at(tree.nodes@, self.source as int));
        }
        match tree.parent(self.source) {
            None => None,
            Some(p) => {
                self.update_source(p);
                Some(p)
            },
        }
    }
}

/// The concatenation of the child lists of the given nodes, in order.
pub open spec fn concat_children(nodes: Seq<TreeNode>, hs: Seq<usize>) -> Seq<usize>
    decreases hs.len(),
{
    if hs.len() == 0 {
        Seq::empty()
    } else {
        nodes[hs[0] as int].spec_children() + concat_children(nodes, hs.drop_first())
    }
}

/// Concatenating child lists distributes over appending one more node.
pub proof fn lemma_concat_children_push(nodes: Seq<TreeNode>, hs: Seq<usize>, x: usize)
    ensures
        concat_children(nodes, hs.push(x)) == concat_children(nodes, hs) + nodes[x as int].spec_children(),
    decreases hs.len(),
{
    let pushed = hs.push(x);
    if hs.len() == 0 {
        assert(pushed[0] == x);
        assert(pushed.drop_first() =~= Seq::<usize>::empty());
        assert(concat_children(nodes, Seq::<usize>::empty()) == Seq::<usize>::empty());
        assert(concat_children(nodes, pushed) =~= concat_children(nodes, hs) + nodes[x as int].spec_children());
    } else {
        assert(pushed.drop_first() =~= hs.drop_first().push(x));
        lemma_concat_children_push(nodes, hs.drop_first(), x);
        assert(concat_children(nodes, pushed) =~= concat_children(nodes, hs) + nodes[x as int].spec_children());
    }
}

/// Walks from a node towards the leaves, one generation per step.
#[derive(Debug)]
pub struct Descendants {
    pub source: usize,
    pub children: Vec<usize>,
}

impl Descendants {
    /// Creates a walk positioned at the given node, holding that node's
    /// children as the first generation.
    pub fn new(tree: &AccountTree, source: usize) -> (r: Descendants)
        requires
            tree.wf(),
            source < tree.nodes@.len(),
        ensures
            r.source == source,
            r.children@ == tree.nodes@[source as int].spec_children(),
            forall|m: int|
                0 <= m < r.children@.len() ==> (#[trigger] r.children@[m] as int)
                    < tree.nodes@.len(),
    {
        proof {
            assert(wf_node_at(tree.nodes@, source as int));
        }
        let children = copy_handles(tree.children(source));
        Descendants { source, children }
    }

    /// Replaces the pending generation.
    fn update_children(&mut self, children: Vec<usize>)
        ensures
            final(self).source == old(self).source,
            final(self).children == children,
    {
        self.children = children;
    }

    /// Whether the walk has run out of nodes.
    fn finished(&self) -> (r: bool)
        ensures
            r == (self.children@.len() == 0),
    {
        self.children.is_empty()
    }

    /// Returns the current generation of handles and advances to the next
    /// one (the concatenation of their child lists), or `None` once the
    /// current generation is empty.
    pub fn next(&mut self, tree: &AccountTree) -> (r: Option<Vec<usize>>)
        requires
            tree.wf(),
            forall|m: int|
                0 <= m < old(self).children@.len() ==> (#[trigger] old(self).children@[m] as int)
                    < tree.nodes@.len(),
        ensures
            final(self).source == old(self).source,
            match r {
                Some(v) => v@ == old(self).children@ && old(self).children@.len() > 0
                    && final(self).children@ == concat_children(tree.nodes@, old(self).children@),
                None => old(self).children@.len() == 0 && *final(self) == *old(self),
            },
            forall|m: int|
                0 <= m < final(self).children@.len() ==> (#[trigger] final(self).children@[m] as int)
                    < tree.nodes@.len(),
    {
        if self.finished() {
            return None;
        }
        let current = copy_handles(&self.children);
        let mut next_children: Vec<usize> = Vec::new();
        let mut k: usize = 0;
        proof {
            assert(current@.take(0) =~= Seq::<usize>::empty());
            assert(concat_children(tree.nodes@, current@.take(0)) =~= Seq::<usize>::empty());
        }
        while k < current.len()
            invariant
                tree.wf(),
                k <= current@.len(),
                forall|m: int|
                    0 <= m < current@.len() ==> (#[trigger] current@[m] as int)
                        < tree.nodes@.len(),
                next_children@ == concat_children(tree.nodes@, current@.take(k as int)),
                forall|m: int|
                    0 <= m < next_children@.len() ==> (#[trigger] next_children@[m] as int)
                        < tree.nodes@.len(),
            decreases current@.len() - k,
        {
            let c = current[k];
            proof {
                assert(wf_node_at(tree.nodes@, c as int));
                lemma_concat_children_push(tree.nodes@, current@.take(k as int), c);
                assert(current@.take(k as int).push(c) =~= current@.take(k as int + 1));
            }
            next_children.extend_from_slice(tree.children(c).as_slice());
            k += 1;
        }
        proof {
            assert(current@.take(current@.len() as int) =~= current@);
        }
        self.update_children(next_children);
        Some(current)
    }
}

/// Copies a vector of node handles.
fn copy_handles(v: &Vec<usize>) -> (r: Vec<usize>)
    ensures
        r@ == v@,
{
    let mut r: Vec<usize> = Vec::new();
    let mut k: usize = 0;
    while k < v.len()
        invariant
            k <= v@.len(),
            r@ == v@.take(k as int),
        decreases v@.len() - k,
    {
        let x = v[k];
        r.push(x);
        proof {
            assert(v@.take(k as int).push(x) =~= v@.take(k as int + 1));
        }
        k += 1;
    }
    proof {
        assert(v@.take(v@.len() as int) =~= v@);
    }
    r
}

/// Every attached child was constructed at its parent's level plus one.
/// This is the level discipline: the node constructors record the level they
/// are given, so the discipline holds of every tree whose attachments all
/// paired a child of level `parent level + 1`.
pub open spec fn levels_linked(nodes: Seq<TreeNode>) -> bool {
    forall|i: int, k: int|
        0 <= i < nodes.len() && 0 <= k < nodes[i].spec_children().len()
            ==> nodes[(#[trigger] nodes[i].spec_children()[k]) as int].spec_level()
                == nodes[i].spec_level() + 1
}

/// In a well-formed tree that satisfies the level discipline, every attached
/// node's level is one more than its parent's, and the root — level zero —
/// has no parent.
pub proof fn lemma_child_level(t: AccountTree, p: int, k: int)
    requires
        t.wf(),
        levels_linked(t.nodes@),
        0 <= p < t.nodes@.len(),
        0 <= k < t.nodes@[p].spec_children().len(),
    ensures
        ({
            let c = t.nodes@[p].spec_children()[k] as int;
            &&& t.nodes@[c].spec_level() == t.nodes@[p].spec_level() + 1
            &&& t.nodes@[c].spec_parent() == Some(p as usize)
        }),
        t.nodes@[0].spec_level() == 0,
        t.nodes@[0].spec_parent() is None,
{
    assert(wf_node_at(t.nodes@, p));
    assert(wf_node_at(t.nodes@, 0));
}

/// Appending a childless node preserves the level discipline.
pub proof fn lemma_levels_linked_push(nodes: Seq<TreeNode>, x: TreeNode)
    requires
        levels_linked(nodes),
        forall|i: int, k: int|
            0 <= i < nodes.len() && 0 <= k < nodes[i].spec_children().len()
                ==> ((#[trigger] nodes[i].spec_children()[k]) as int) < nodes.len(),
        x.spec_children().len() == 0,
    ensures
        levels_linked(nodes.push(x)),
{
    let ext = nodes.push(x);
    assert forall|i: int, k: int|
        0 <= i < ext.len() && 0 <= k < ext[i].spec_children().len() implies ext[(#[trigger] ext[i].spec_children()[k]) as int].spec_level() == ext[i].spec_level() + 1 by {
        if i < nodes.len() {
            assert(ext[i] == nodes[i]);
            assert((nodes[i].spec_children()[k] as int) < nodes.len());
        }
    }
}

/// Attaching a child whose level is its parent's plus one preserves the
/// level discipline.
pub proof fn lemma_levels_linked_attach(a: Seq<TreeNode>, b: Seq<TreeNode>, parent: int, child: usize)
    requires
        levels_linked(a),
        forall|t: int| 0 <= t < a.len() ==> wf_node_at(a, t),
        0 <= parent < a.len(),
        (child as int) < a.len(),
        a.len() == b.len(),
        forall|i: int| 0 <= i < a.len() && i != parent ==> a[i] == #[trigger] b[i],
        a[parent].child_appended(b[parent], child),
        a[child as int].spec_level() == a[parent].spec_level() + 1,
    ensures
        levels_linked(b),
{
    assert forall|i: int, k: int|
        0 <= i < b.len() && 0 <= k < b[i].spec_children().len() implies b[(#[trigger] b[i].spec_children()[k]) as int].spec_level() == b[i].spec_level() + 1 by {
        assert(wf_node_at(a, i));
        if i == parent {
            let cs = a[parent].spec_children();
            assert(b[i].spec_children() == cs.push(child));
            if k < cs.len() {
                assert(b[i].spec_children()[k] == cs[k]);
                assert((cs[k] as int) < a.len());
                assert(a[(cs[k]) as int].spec_level() == a[i].spec_level() + 1);
            } else {
                assert(b[i].spec_children()[k] == child);
            }
        } else {
            assert(b[i].spec_children() == a[i].spec_children());
            assert((a[i].spec_children()[k] as int) < a.len());
        }
    }
}

/// In a well-formed tree, a node deeper than level one carries the account
/// type of its nearest level-one ancestor, transitively, at any depth.
pub proof fn lemma_account_type_inherited(t: AccountTree, i: int)
    requires
        t.wf(),
        0 <= i < t.nodes@.len(),
        t.nodes@[i].spec_level() > 1,
    ensures
        match nearest_level_one(t.nodes@, i) {
            Some(a) => t.nodes@[i].spec_account_type() == t.nodes@[a].spec_account_type(),
            None => true,
        },
{
    lemma_type_chain(t.nodes@, i);
}

/// The inductive core of [`lemma_account_type_inherited`]: any non-level-one
/// tag or account node agrees with its nearest level-one ancestor.
proof fn lemma_type_chain(nodes: Seq<TreeNode>, i: int)
    requires
        forall|t: int| 0 <= t < nodes.len() ==> wf_node_at(nodes, t),
        0 <= i < nodes.len(),
        nodes[i] is Tag ==> nodes[i].spec_level() != 1,
    ensures
        match nearest_level_one(nodes, i) {
            Some(a) => nodes[i].spec_account_type() == nodes[a].spec_account_type(),
            None => true,
        },
    decreases i,
{
    assert(wf_node_at(nodes, i));
    match nodes[i].spec_parent() {
        None => {},
        Some(p) => {
            let pi = p as int;
            assert(pi < i);
            assert(wf_node_at(nodes, pi));
            if nodes[pi].spec_level() == 1 {
                assert(nearest_level_one(nodes, i) == Some(pi));
            } else {
                lemma_type_chain(nodes, pi);
                assert(nearest_level_one(nodes, i) == nearest_level_one(nodes, pi));
            }
        },
    }
}

/// A failed name search means no node anywhere in the subtree matches the
/// query up to ASCII case; a successful one returns a subtree node whose
/// name matches.
pub proof fn lemma_dfs_characterization(nodes: Seq<TreeNode>, i: int, query: Seq<char>)
    ensures
        dfs_find(nodes, i, query) is None ==> forall|j: int|
            in_subtree(nodes, i, j) ==> !names_match(
                #[trigger] nodes[j].spec_name(),
                query,
            ),
        match dfs_find(nodes, i, query) {
            Some(r) => in_subtree(nodes, i, r) && names_match(nodes[r].spec_name(), query),
            None => true,
        },
    decreases nodes.len() - i, 1int, 0int,
{
    if 0 <= i < nodes.len() {
        if !names_match(nodes[i].spec_name(), query) {
            lemma_dfs_children_characterization(nodes, i, 0, query);
            if dfs_find(nodes, i, query) is None {
                assert forall|j: int|
                    in_subtree(nodes, i, j) implies !names_match(
                    #[trigger] nodes[j].spec_name(),
                    query,
                ) by {
                    if j != i {
                        assert(subtree_of_children(nodes, i, 0, j));
                    }
                }
            } else {
                match dfs_find_children(nodes, i, 0, query) {
                    Some(r) => {
                        lemma_soc_mono(nodes, i, 0, 0, r);
                    },
                    None => {},
                }
            }
        }
    }
}

proof fn lemma_dfs_children_characterization(nodes: Seq<TreeNode>, i: int, k: int, query: Seq<char>)
    requires
        0 <= i < nodes.len(),
    ensures
        dfs_find_children(nodes, i, k, query) is None ==> forall|j: int|
            subtree_of_children(nodes, i, k, j) ==> !names_match(
                #[trigger] nodes[j].spec_name(),
                query,
            ),
        match dfs_find_children(nodes, i, k, query) {
            Some(r) => subtree_of_children(nodes, i, k, r) && names_match(
                nodes[r].spec_name(),
                query,
            ),
            None => true,
        },
    decreases nodes.len() - i, 0int, nodes[i].spec_children().len() - k,
{
    if 0 <= k < nodes[i].spec_children().len() {
        let c = nodes[i].spec_children()[k] as int;
        if i < c < nodes.len() {
            lemma_dfs_characterization(nodes, c, query);
        }
        lemma_dfs_children_characterization(nodes, i, k + 1, query);
    }
}

/// Every internal node — one with children — of the subtree at `i` holds
/// amount zero.
pub open spec fn internals_zero(nodes: Seq<TreeNode>, i: int) -> bool {
    forall|j: int|
        in_subtree(nodes, i, j) && nodes[j].spec_children().len() > 0
            ==> #[trigger] nodes[j].spec_amount() == 0
}

/// Post-order aggregation computes leaf sums: when every internal node of a
/// subtree starts at zero, the subtree's aggregated total is exactly the sum
/// of its leaves' amounts.
pub proof fn lemma_total_is_leaf_sum(nodes: Seq<TreeNode>, i: int)
    requires
        internals_zero(nodes, i),
    ensures
        subtree_total(nodes, i) == leaf_total(nodes, i),
    decreases nodes.len() - i, 1int, 0int,
{
    if 0 <= i < nodes.len() {
        assert(in_subtree(nodes, i, i));
        if nodes[i].spec_children().len() == 0 {
            assert(children_total(nodes, i, 0) == 0);
        } else {
            assert(nodes[i].spec_amount() == 0);
            lemma_children_totals_are_leaf_sums(nodes, i, 0);
        }
    }
}

proof fn lemma_children_totals_are_leaf_sums(nodes: Seq<TreeNode>, i: int, k: int)
    requires
        0 <= i < nodes.len(),
        internals_zero(nodes, i),
    ensures
        children_total(nodes, i, k) == children_leaf_total(nodes, i, k),
    decreases nodes.len() - i, 0int, nodes[i].spec_children().len() - k,
{
    if 0 <= k < nodes[i].spec_children().len() {
        let c = nodes[i].spec_children()[k] as int;
        if i < c < nodes.len() {
            assert forall|j: int|
                in_subtree(nodes, c, j) && nodes[j].spec_children().len() > 0 implies #[trigger] nodes[j].spec_amount() == 0 by {
                lemma_member_via_child(nodes, i, k, j);
            }
            lemma_total_is_leaf_sum(nodes, c);
        }
        lemma_children_totals_are_leaf_sums(nodes, i, k + 1);
    }
}

} // verus!

//! The aggregator: a tree of entries keyed by their path relative to the scan
//! root, with running subtree sizes.
//!
//! Nodes live in an arena and are addressed by their index, which is the
//! order of registration. A parent is always registered before its children,
//! so every parent has a smaller index than its children.

use vstd::prelude::*;
use crate::fs::entity::FsEntity;
use crate::fs::path::{key_of, parent_key, parent_of, relative_key};

verus! {

/// One registered entry.
#[derive(Debug)]
pub struct TreeNode {
    /// Path relative to the scan root; empty for the root.
    pub key: String,
    /// Bytes that this entry holds itself.
    pub own_size_bytes: u64,
    /// Bytes that this entry and all its registered descendants hold.
    pub aggregate_size_bytes: u64,
    /// Index of the parent; `None` only for the root.
    pub parent: Option<usize>,
    /// Indices of the children, in the order of their registration.
    pub children: Vec<usize>,
    /// Place of this node in its parent's list of children.
    pub sibling_index: usize,
    pub is_dir: bool,
    /// Distance from the scan root, as the walker reported it.
    pub depth: u16,
}

/// What one registration changed.
#[derive(Debug)]
pub struct AggregateDelta {
    /// Index of the node that was registered.
    pub node: usize,
    /// Bytes that the node added to each of its ancestors.
    pub added_bytes: u64,
    /// The ancestors whose aggregate size changed, nearest first; empty when
    /// the node added no bytes.
    pub changed: Vec<usize>,
}

/// A node was registered before its parent.
#[derive(Debug)]
pub struct OrphanNodeError {
    /// Key of the node that has no registered parent.
    pub key: String,
}

/// The aggregated tree of one scan.
#[derive(Debug)]
pub struct DiskUsageTree {
    root_path: String,
    nodes: Vec<TreeNode>,
}

/// The nodes from `i` up to the root: `i`, its parent, and so on.
pub open spec fn path_to_root(nodes: Seq<TreeNode>, i: int) -> Seq<int>
    decreases i,
{
    if 0 <= i < nodes.len() {
        match nodes[i].parent {
            Some(p) => if p < i {
                seq![i] + path_to_root(nodes, p as int)
            } else {
                seq![i]
            },
            None => seq![i],
        }
    } else {
        Seq::empty()
    }
}

/// Node `i` is `a` or one of its descendants.
pub open spec fn in_subtree(nodes: Seq<TreeNode>, i: int, a: int) -> bool {
    path_to_root(nodes, i).contains(a)
}

/// Own bytes of those of the first `m` nodes that lie in the subtree of `a`.
pub open spec fn subtree_bytes_upto(nodes: Seq<TreeNode>, a: int, m: int) -> int
    decreases m,
{
    if m <= 0 {
        0
    } else {
        subtree_bytes_upto(nodes, a, m - 1) + if in_subtree(nodes, m - 1, a) {
            nodes[m - 1].own_size_bytes as int
        } else {
            0
        }
    }
}

/// Own bytes of `a` and all its registered descendants.
pub open spec fn subtree_bytes(nodes: Seq<TreeNode>, a: int) -> int {
    subtree_bytes_upto(nodes, a, nodes.len() as int)
}

/// Own bytes of the first `m` nodes.
pub open spec fn own_bytes_upto(nodes: Seq<TreeNode>, m: int) -> int
    decreases m,
{
    if m <= 0 {
        0
    } else {
        own_bytes_upto(nodes, m - 1) + nodes[m - 1].own_size_bytes
    }
}

/// Aggregate sizes of the first `m` children in a list of children.
pub open spec fn children_bytes_upto(nodes: Seq<TreeNode>, children: Seq<usize>, m: int) -> int
    decreases m,
{
    if m <= 0 {
        0
    } else {
        children_bytes_upto(nodes, children, m - 1) + nodes[children[m - 1] as int].aggregate_size_bytes
    }
}

/// Aggregate sizes of the children of `p`, added up.
pub open spec fn children_bytes(nodes: Seq<TreeNode>, p: int) -> int {
    children_bytes_upto(nodes, nodes[p].children@, nodes[p].children@.len() as int)
}

/// Node `i`, which is not the root, names a parent that was registered before
/// it, stands in that parent's list of children, and has the key of a child
/// of that parent.
pub open spec fn linked_up(nodes: Seq<TreeNode>, i: int) -> bool {
    &&& nodes[i].parent matches Some(p)
    &&& p < i
    &&& nodes[i].sibling_index < nodes[p as int].children@.len()
    &&& nodes[p as int].children@[nodes[i].sibling_index as int] == i
    &&& parent_of(nodes[i].key@) == Some(nodes[p as int].key@)
}

/// The `j`-th child of `p` is a node that names `p` as its parent and `j` as
/// its place.
pub open spec fn linked_down(nodes: Seq<TreeNode>, p: int, j: int) -> bool {
    let c = nodes[p].children@[j];
    &&& p < c < nodes.len()
    &&& nodes[c as int].parent == Some(p as usize)
    &&& nodes[c as int].sibling_index == j
}

/// Parents and children agree, the first node is the root, and no key occurs
/// twice.
pub open spec fn well_linked(nodes: Seq<TreeNode>) -> bool {
    &&& nodes.len() > 0 ==> nodes[0].parent is None && nodes[0].key@.len() == 0
    &&& forall|i: int| 0 < i < nodes.len() ==> #[trigger] linked_up(nodes, i)
    &&& forall|p: int, j: int|
        0 <= p < nodes.len() && 0 <= j < nodes[p].children@.len() ==> #[trigger] linked_down(
            nodes,
            p,
            j,
        )
    &&& forall|i: int, j: int|
        0 <= i < j < nodes.len() ==> (#[trigger] nodes[i]).key@ != (#[trigger] nodes[j]).key@
}

/// Every aggregate size is the sum of the own sizes in the node's subtree.
pub open spec fn aggregates_exact(nodes: Seq<TreeNode>) -> bool {
    forall|a: int|
        0 <= a < nodes.len() ==> (#[trigger] nodes[a]).aggregate_size_bytes == subtree_bytes(
            nodes,
            a,
        )
}

/// Index of a node's parent, or `-1` for a node without one.
pub open spec fn parent_index(node: TreeNode) -> int {
    match node.parent {
        Some(p) => p as int,
        None => -1,
    }
}

/// Every aggregate size is the node's own size plus the aggregate sizes of
/// its children, except that the node `debtor` still lacks `debt`. An index
/// that no node has, such as `-1`, excepts nothing.
pub open spec fn settled_except(nodes: Seq<TreeNode>, debtor: int, debt: int) -> bool {
    forall|a: int|
        0 <= a < nodes.len() ==> (#[trigger] nodes[a]).aggregate_size_bytes + (if a == debtor {
            debt
        } else {
            0
        }) == nodes[a].own_size_bytes + children_bytes(nodes, a)
}

/// The two sequences of nodes have the same parents.
pub open spec fn same_parents(before: Seq<TreeNode>, after: Seq<TreeNode>, n: int) -> bool {
    &&& n <= before.len()
    &&& n <= after.len()
    &&& forall|i: int| 0 <= i < n ==> (#[trigger] before[i]).parent == (#[trigger] after[i]).parent
}

/// The path to the root depends on the parents alone.
pub proof fn lemma_same_path(before: Seq<TreeNode>, after: Seq<TreeNode>, n: int, i: int)
    requires
        same_parents(before, after, n),
        0 <= i < n,
    ensures
        path_to_root(before, i) == path_to_root(after, i),
    decreases i,
{
    match before[i].parent {
        Some(p) => {
            if p < i {
                lemma_same_path(before, after, n, p as int);
            }
        },
        None => {},
    }
}

/// The path from `i` to the root starts at `i`, descends strictly in index,
/// and moves from each node to its parent.
pub proof fn lemma_path_shape(nodes: Seq<TreeNode>, i: int)
    requires
        0 <= i < nodes.len(),
    ensures
        path_to_root(nodes, i).len() >= 1,
        path_to_root(nodes, i)[0] == i,
        forall|k: int|
            0 <= k < path_to_root(nodes, i).len() ==> 0 <= (#[trigger] path_to_root(nodes, i)[k])
                <= i,
        forall|k: int, l: int|
            0 <= k < l < path_to_root(nodes, i).len() ==> path_to_root(nodes, i)[k]
                > path_to_root(nodes, i)[l],
        forall|k: int|
            0 <= k < path_to_root(nodes, i).len() - 1 ==> nodes[#[trigger] path_to_root(
                nodes,
                i,
            )[k]].parent == Some(path_to_root(nodes, i)[k + 1] as usize),
    decreases i,
{
    let path = path_to_root(nodes, i);
    match nodes[i].parent {
        Some(p) => {
            if p < i {
                lemma_path_shape(nodes, p as int);
            }
        },
        None => {},
    }
}

/// In a well-linked tree the path to the root ends at the root.
pub proof fn lemma_path_ends_at_root(nodes: Seq<TreeNode>, i: int)
    requires
        well_linked(nodes),
        0 <= i < nodes.len(),
    ensures
        path_to_root(nodes, i).last() == 0,
        nodes[path_to_root(nodes, i).last()].parent is None,
    decreases i,
{
    if i > 0 {
        assert(linked_up(nodes, i));
        let p = nodes[i].parent->0;
        lemma_path_ends_at_root(nodes, p as int);
    }
}

/// A subtree holds no more than all nodes together.
pub proof fn lemma_subtree_within_total(nodes: Seq<TreeNode>, a: int, m: int)
    ensures
        0 <= subtree_bytes_upto(nodes, a, m) <= own_bytes_upto(nodes, m),
    decreases m,
{
    if m > 0 {
        lemma_subtree_within_total(nodes, a, m - 1);
    }
}

/// Sums over the first `m` nodes depend on those nodes' parents and own sizes
/// alone.
pub proof fn lemma_same_sums(before: Seq<TreeNode>, after: Seq<TreeNode>, n: int, a: int, m: int)
    requires
        same_parents(before, after, n),
        forall|i: int|
            0 <= i < n ==> (#[trigger] before[i]).own_size_bytes == (
            #[trigger] after[i]).own_size_bytes,
        m <= n,
    ensures
        subtree_bytes_upto(before, a, m) == subtree_bytes_upto(after, a, m),
        own_bytes_upto(before, m) == own_bytes_upto(after, m),
    decreases m,
{
    if m > 0 {
        lemma_same_sums(before, after, n, a, m - 1);
        lemma_same_path(before, after, n, m - 1);
    }
}

/// No node with a smaller index lies in the subtree of a node with a larger
/// one.
pub proof fn lemma_subtree_of_later_node(nodes: Seq<TreeNode>, a: int, m: int)
    requires
        m <= a,
    ensures
        subtree_bytes_upto(nodes, a, m) == 0,
    decreases m,
{
    if m > 0 {
        lemma_subtree_of_later_node(nodes, a, m - 1);
        if 0 <= m - 1 < nodes.len() {
            lemma_path_shape(nodes, m - 1);
        }
    }
}

/// The children's sum depends on the list of children and on their aggregate
/// sizes alone.
pub proof fn lemma_same_children_bytes(
    before: Seq<TreeNode>,
    after: Seq<TreeNode>,
    children: Seq<usize>,
    m: int,
)
    requires
        0 <= m <= children.len(),
        forall|j: int|
            0 <= j < m ==> before[(#[trigger] children[j]) as int].aggregate_size_bytes
                == after[children[j] as int].aggregate_size_bytes,
    ensures
        children_bytes_upto(before, children, m) == children_bytes_upto(after, children, m),
    decreases m,
{
    if m > 0 {
        lemma_same_children_bytes(before, after, children, m - 1);
        assert(before[children[m - 1] as int].aggregate_size_bytes == after[children[m
            - 1] as int].aggregate_size_bytes);
    }
}

/// When one child, which occurs once in the list, grows by `delta`, the
/// children's sum grows by `delta`.
pub proof fn lemma_one_child_grew(
    before: Seq<TreeNode>,
    after: Seq<TreeNode>,
    children: Seq<usize>,
    at: int,
    delta: int,
    m: int,
)
    requires
        0 <= m <= children.len(),
        0 <= at < children.len(),
        forall|j: int|
            0 <= j < children.len() && j != at ==> before[(
            #[trigger] children[j]) as int].aggregate_size_bytes
                == after[children[j] as int].aggregate_size_bytes,
        after[children[at] as int].aggregate_size_bytes
            == before[children[at] as int].aggregate_size_bytes + delta,
    ensures
        children_bytes_upto(after, children, m) == children_bytes_upto(before, children, m) + if at
            < m {
            delta
        } else {
            0
        },
    decreases m,
{
    if m > 0 {
        lemma_one_child_grew(before, after, children, at, delta, m - 1);
        if m - 1 != at {
            assert(before[children[m - 1] as int].aggregate_size_bytes == after[children[m
                - 1] as int].aggregate_size_bytes);
        }
    }
}

/// The children's sum of a list that was extended by one child.
pub proof fn lemma_children_bytes_push(nodes: Seq<TreeNode>, children: Seq<usize>, c: usize)
    ensures
        children_bytes_upto(nodes, children.push(c), children.len() as int + 1) == children_bytes_upto(
            nodes,
            children,
            children.len() as int,
        ) + nodes[c as int].aggregate_size_bytes,
{
    lemma_children_bytes_prefix(nodes, children, children.push(c), children.len() as int);
}

proof fn lemma_children_bytes_prefix(
    nodes: Seq<TreeNode>,
    a: Seq<usize>,
    b: Seq<usize>,
    m: int,
)
    requires
        0 <= m <= a.len(),
        m <= b.len(),
        forall|j: int| 0 <= j < m ==> a[j] == b[j],
    ensures
        children_bytes_upto(nodes, a, m) == children_bytes_upto(nodes, b, m),
    decreases m,
{
    if m > 0 {
        lemma_children_bytes_prefix(nodes, a, b, m - 1);
    }
}

/// Two nodes differ at most in their aggregate size.
pub open spec fn same_shape(a: TreeNode, b: TreeNode) -> bool {
    &&& a.key == b.key
    &&& a.own_size_bytes == b.own_size_bytes
    &&& a.parent == b.parent
    &&& a.children == b.children
    &&& a.sibling_index == b.sibling_index
    &&& a.is_dir == b.is_dir
    &&& a.depth == b.depth
}

/// Two arenas differ at most in aggregate sizes.
pub open spec fn same_shapes(before: Seq<TreeNode>, after: Seq<TreeNode>) -> bool {
    &&& before.len() == after.len()
    &&& forall|i: int| 0 <= i < before.len() ==> #[trigger] same_shape(before[i], after[i])
}

/// Links do not depend on aggregate sizes.
pub proof fn lemma_shapes_keep_links(before: Seq<TreeNode>, after: Seq<TreeNode>)
    requires
        well_linked(before),
        same_shapes(before, after),
    ensures
        well_linked(after),
        same_parents(before, after, before.len() as int),
{
    assert forall|i: int| 0 <= i < before.len() implies (#[trigger] before[i]).parent == (
    #[trigger] after[i]).parent by {
        assert(same_shape(before[i], after[i]));
    }
    assert forall|i: int| 0 < i < after.len() implies #[trigger] linked_up(after, i) by {
        assert(linked_up(before, i));
        assert(same_shape(before[i], after[i]));
        let p = before[i].parent->0 as int;
        assert(same_shape(before[p], after[p]));
    }
    assert forall|p: int, j: int|
        0 <= p < after.len() && 0 <= j < after[p].children@.len() implies #[trigger] linked_down(
        after,
        p,
        j,
    ) by {
        assert(same_shape(before[p], after[p]));
        assert(linked_down(before, p, j));
        let c = before[p].children@[j] as int;
        assert(same_shape(before[c], after[c]));
    }
    assert forall|i: int, j: int| 0 <= i < j < after.len() implies (#[trigger] after[i]).key@ != (
    #[trigger] after[j]).key@ by {
        assert(same_shape(before[i], after[i]));
        assert(same_shape(before[j], after[j]));
    }
    if after.len() > 0 {
        assert(same_shape(before[0], after[0]));
    }
}

/// When the node that still lacks `size` receives it, its parent lacks it in
/// turn, and every other node stays settled.
pub proof fn lemma_debt_moves_up(before: Seq<TreeNode>, after: Seq<TreeNode>, c: int, size: int)
    requires
        well_linked(before),
        0 <= c < before.len(),
        same_shapes(before, after),
        after[c].aggregate_size_bytes == before[c].aggregate_size_bytes + size,
        forall|a: int|
            0 <= a < before.len() && a != c ==> (#[trigger] after[a]).aggregate_size_bytes
                == before[a].aggregate_size_bytes,
        settled_except(before, c, size),
    ensures
        settled_except(after, parent_index(before[c]), size),
{
    assert forall|a: int| 0 <= a < after.len() implies (#[trigger] after[a]).aggregate_size_bytes
        + (if a == parent_index(before[c]) {
        size
    } else {
        0
    }) == after[a].own_size_bytes + children_bytes(after, a) by {
        assert(same_shape(before[a], after[a]));
        let children = before[a].children@;
        assert(before[a].aggregate_size_bytes + (if a == c {
            size
        } else {
            0
        }) == before[a].own_size_bytes + children_bytes(before, a));
        if a == parent_index(before[c]) {
            assert(linked_up(before, c));
            let at = before[c].sibling_index as int;
            assert forall|j: int| 0 <= j < children.len() && j != at implies before[(
            #[trigger] children[j]) as int].aggregate_size_bytes
                == after[children[j] as int].aggregate_size_bytes by {
                assert(linked_down(before, a, j));
            }
            lemma_one_child_grew(before, after, children, at, size, children.len() as int);
        } else {
            assert forall|j: int| 0 <= j < children.len() implies before[(
            #[trigger] children[j]) as int].aggregate_size_bytes
                == after[children[j] as int].aggregate_size_bytes by {
                assert(linked_down(before, a, j));
            }
            lemma_same_children_bytes(before, after, children, children.len() as int);
        }
    }
}

impl View for DiskUsageTree {
    type V = Seq<TreeNode>;

    /// The registered nodes, in the order of their registration.
    closed spec fn view(&self) -> Seq<TreeNode> {
        self.nodes@
    }
}

impl DiskUsageTree {
    /// The absolute path of the scan root.
    pub closed spec fn spec_root_path(&self) -> Seq<char> {
        self.root_path@
    }

    /// Own bytes of all registered nodes.
    pub open spec fn spec_total_bytes(&self) -> int {
        own_bytes_upto(self@, self@.len() as int)
    }

    /// Whether a node with this key is registered.
    pub open spec fn has_key(&self, key: Seq<char>) -> bool {
        exists|i: int| 0 <= i < self@.len() && (#[trigger] self@[i]).key@ == key
    }

    /// The tree is valid: links agree, keys are unique, every aggregate size
    /// is the sum of the own sizes in the node's subtree and also the node's
    /// own size plus its children's aggregate sizes, and the total fits.
    pub open spec fn wf(&self) -> bool {
        &&& well_linked(self@)
        &&& aggregates_exact(self@)
        &&& settled_except(self@, -1, 0)
        &&& self.spec_total_bytes() <= u64::MAX
    }

    /// An empty tree for a scan of `root_path`.
    pub fn new(root_path: String) -> (tree: Self)
        ensures
            tree.wf(),
            tree@.len() == 0,
            tree.spec_root_path() == root_path@,
    {
        DiskUsageTree { root_path, nodes: Vec::new() }
    }

    /// The absolute path of the scan root.
    pub fn root_path(&self) -> (path: &String)
        ensures
            path@ == self.spec_root_path(),
    {
        &self.root_path
    }

    /// The registered nodes, in the order of their registration.
    pub fn nodes(&self) -> (nodes: &Vec<TreeNode>)
        ensures
            nodes@ == self@,
    {
        &self.nodes
    }

    /// Number of registered nodes.
    pub fn len(&self) -> (len: usize)
        ensures
            len == self@.len(),
    {
        self.nodes.len()
    }

    /// The node with index `index`, if there is one.
    pub fn node(&self, index: usize) -> (node: Option<&TreeNode>)
        ensures
            node is Some <==> index < self@.len(),
            node matches Some(n) ==> *n == self@[index as int],
    {
        if index < self.nodes.len() {
            Some(&self.nodes[index])
        } else {
            None
        }
    }

    /// The index of the node with this key, if one is registered.
    pub fn find(&self, key: &String) -> (index: Option<usize>)
        ensures
            index is Some <==> self.has_key(key@),
            index matches Some(i) ==> i < self@.len() && self@[i as int].key@ == key@,
    {
        let mut i: usize = 0;
        while i < self.nodes.len()
            invariant
                i <= self.nodes@.len(),
                forall|j: int| 0 <= j < i ==> (#[trigger] self.nodes@[j]).key@ != key@,
            decreases self.nodes.len() - i,
        {
            if self.nodes[i].key == *key {
                return Some(i);
            }
            i += 1;
        }
        None
    }

    /// The node with this key, if one is registered.
    pub fn get(&self, key: &String) -> (node: Option<&TreeNode>)
        ensures
            node is Some <==> self.has_key(key@),
            node matches Some(n) ==> n.key@ == key@ && exists|i: int|
                0 <= i < self@.len() && *n == #[trigger] self@[i],
    {
        match self.find(key) {
            Some(i) => Some(&self.nodes[i]),
            None => None,
        }
    }

    /// The key of the parent of node `index`; `None` for the root and for an
    /// index that no node has.
    pub fn parent_key(&self, index: usize) -> (key: Option<&String>)
        requires
            self.wf(),
        ensures
            key is Some <==> 0 < index < self@.len(),
            key matches Some(k) ==> *k == self@[parent_index(self@[index as int])].key,
    {
        if index < self.nodes.len() {
            if index > 0 {
                assert(linked_up(self.nodes@, index as int));
            }
            match self.nodes[index].parent {
                Some(p) => Some(&self.nodes[p].key),
                None => None,
            }
        } else {
            None
        }
    }

    /// The keys of the children of node `index`, in the order of their
    /// registration; none for an index that no node has.
    pub fn children_keys(&self, index: usize) -> (keys: Vec<&String>)
        requires
            self.wf(),
        ensures
            index >= self@.len() ==> keys@.len() == 0,
            index < self@.len() ==> keys@.len() == self@[index as int].children@.len(),
            forall|j: int|
                0 <= j < keys@.len() ==> *(#[trigger] keys@[j])
                    == self@[self@[index as int].children@[j] as int].key,
    {
        let mut keys: Vec<&String> = Vec::new();
        if index >= self.nodes.len() {
            return keys;
        }
        let mut j: usize = 0;
        while j < self.nodes[index].children.len()
            invariant
                index < self.nodes@.len(),
                well_linked(self.nodes@),
                j <= self.nodes@[index as int].children@.len(),
                keys@.len() == j,
                forall|i: int|
                    0 <= i < j ==> *(#[trigger] keys@[i])
                        == self.nodes@[self.nodes@[index as int].children@[i] as int].key,
            decreases self.nodes@[index as int].children@.len() - j,
        {
            assert(linked_down(self.nodes@, index as int, j as int));
            let c: usize = self.nodes[index].children[j];
            keys.push(&self.nodes[c].key);
            j += 1;
        }
        keys
    }

    /// Own bytes of all registered nodes: the aggregate size of the root.
    pub fn total_bytes(&self) -> (total: u64)
        requires
            self.wf(),
        ensures
            total == self.spec_total_bytes(),
    {
        if self.nodes.len() == 0 {
            0
        } else {
            proof {
                lemma_root_holds_all(self@, self@.len() as int);
            }
            self.nodes[0].aggregate_size_bytes
        }
    }
}

/// Aggregates are always exact for what has been registered: in a valid tree
/// the aggregate size of a node is the sum of the own sizes of the node and
/// of all its registered descendants, and also the node's own size plus the
/// aggregate sizes of its children.
pub proof fn lemma_aggregate_is_subtree_sum(tree: DiskUsageTree, a: int)
    requires
        tree.wf(),
        0 <= a < tree@.len(),
    ensures
        tree@[a].aggregate_size_bytes == subtree_bytes(tree@, a),
        tree@[a].aggregate_size_bytes == tree@[a].own_size_bytes + children_bytes(tree@, a),
        tree@[a].aggregate_size_bytes <= tree.spec_total_bytes(),
{
    lemma_subtree_within_total(tree@, a, tree@.len() as int);
}

/// Every node lies in the subtree of the root.
pub proof fn lemma_root_holds_all(nodes: Seq<TreeNode>, m: int)
    requires
        well_linked(nodes),
        0 <= m <= nodes.len(),
    ensures
        subtree_bytes_upto(nodes, 0, m) == own_bytes_upto(nodes, m),
    decreases m,
{
    if m > 0 {
        lemma_root_holds_all(nodes, m - 1);
        lemma_path_ends_at_root(nodes, m - 1);
        let path = path_to_root(nodes, m - 1);
    }
}

/// What a registration leaves of the nodes that were there before it: all but
/// the aggregate sizes, which grew by `size` on the path from `parent` to the
/// root, and the parent's list of children, which gained the new node.
pub open spec fn grown_by(
    before: Seq<TreeNode>,
    after: Seq<TreeNode>,
    parent: int,
    size: int,
) -> bool {
    &&& after.len() == before.len() + 1
    &&& forall|a: int|
        0 <= a < before.len() ==> {
            &&& (#[trigger] after[a]).key == before[a].key
            &&& after[a].own_size_bytes == before[a].own_size_bytes
            &&& after[a].parent == before[a].parent
            &&& after[a].sibling_index == before[a].sibling_index
            &&& after[a].is_dir == before[a].is_dir
            &&& after[a].depth == before[a].depth
            &&& after[a].children@ == if a == parent {
                before[a].children@.push(before.len() as usize)
            } else {
                before[a].children@
            }
            &&& after[a].aggregate_size_bytes == before[a].aggregate_size_bytes + if in_subtree(
                before,
                parent,
                a,
            ) {
                size
            } else {
                0
            }
        }
}

impl DiskUsageTree {
    /// Adds `size` to the aggregate size of `start` and of each of its
    /// ancestors, and returns them, nearest first.
    fn add_to_ancestors(&mut self, start: usize, size: u64) -> (changed: Vec<usize>)
        requires
            start < old(self).nodes@.len(),
            well_linked(old(self).nodes@),
            settled_except(old(self).nodes@, start as int, size as int),
            forall|a: int|
                0 <= a <= start ==> (#[trigger] old(self).nodes@[a]).aggregate_size_bytes + size
                    <= u64::MAX,
        ensures
            final(self).root_path == old(self).root_path,
            same_shapes(old(self).nodes@, final(self).nodes@),
            forall|a: int|
                0 <= a < old(self).nodes@.len() ==> (#[trigger] final(self).nodes@[a]).aggregate_size_bytes
                    == old(self).nodes@[a].aggregate_size_bytes
                    + if in_subtree(old(self).nodes@, start as int, a) {
                    size as int
                } else {
                    0
                },
            settled_except(final(self).nodes@, -1, 0),
            changed@.len() == path_to_root(old(self).nodes@, start as int).len(),
            forall|k: int|
                0 <= k < changed@.len() ==> (#[trigger] changed@[k]) == path_to_root(
                    old(self).nodes@,
                    start as int,
                )[k],
    {
        let ghost before = self.nodes@;
        let ghost path = path_to_root(before, start as int);
        proof {
            assert(path.take(0) =~= Seq::<int>::empty());
        }
        let mut changed: Vec<usize> = Vec::new();
        let mut cur: Option<usize> = Some(start);
        let ghost mut k: int = 0;
        while cur.is_some()
            invariant
                well_linked(before),
                start < before.len(),
                path == path_to_root(before, start as int),
                self.root_path == old(self).root_path,
                same_shapes(before, self.nodes@),
                0 <= k <= path.len(),
                cur == if k < path.len() {
                    Some(path[k] as usize)
                } else {
                    None::<usize>
                },
                forall|a: int|
                    0 <= a < before.len() ==> (#[trigger] self.nodes@[a]).aggregate_size_bytes
                        == before[a].aggregate_size_bytes + if path.take(k).contains(a) {
                        size as int
                    } else {
                        0
                    },
                settled_except(
                    self.nodes@,
                    if k < path.len() {
                        path[k]
                    } else {
                        -1
                    },
                    size as int,
                ),
                forall|a: int|
                    0 <= a <= start ==> (#[trigger] before[a]).aggregate_size_bytes + size
                        <= u64::MAX,
                changed@.len() == k,
                forall|j: int| 0 <= j < k ==> (#[trigger] changed@[j]) == path[j],
            decreases path.len() - k,
        {
            let c: usize = cur.unwrap();
            let ghost now = self.nodes@;
            proof {
                lemma_path_shape(before, start as int);
                lemma_path_ends_at_root(before, start as int);
                lemma_shapes_keep_links(before, now);
                let seen = path.take(k);
                assert(!seen.contains(c as int)) by {
                    if seen.contains(c as int) {
                        let j = choose|j: int| 0 <= j < seen.len() && seen[j] == c as int;
                    }
                }
                assert(same_shape(before[c as int], now[c as int]));
            }
            let bumped: u64 = self.nodes[c].aggregate_size_bytes + size;
            self.nodes[c].aggregate_size_bytes = bumped;
            changed.push(c);
            cur = self.nodes[c].parent;
            proof {
                let after = self.nodes@;
                assert forall|i: int| 0 <= i < now.len() implies #[trigger] same_shape(
                    now[i],
                    after[i],
                ) by {}
                lemma_debt_moves_up(now, after, c as int, size as int);
                assert forall|a: int| 0 <= a < before.len() implies (
                #[trigger] after[a]).aggregate_size_bytes == before[a].aggregate_size_bytes
                    + if path.take(k + 1).contains(a) {
                    size as int
                } else {
                    0
                } by {
                    assert(now[a].aggregate_size_bytes == before[a].aggregate_size_bytes
                        + if path.take(k).contains(a) {
                        size as int
                    } else {
                        0
                    });
                    let seen = path.take(k);
                    let seen_next = path.take(k + 1);
                    if a == c {
                        assert(seen_next[k] == c);
                    } else {
                        if seen_next.contains(a) {
                            let j = choose|j: int| 0 <= j < seen_next.len() && seen_next[j] == a;
                        }
                        if seen.contains(a) {
                            let j = choose|j: int| 0 <= j < seen.len() && seen[j] == a;
                        }
                    }
                }
                k = k + 1;
            }
        }
        proof {
            assert(path.take(k) =~= path);
        }
        changed
    }
}

/// Two nodes stand for the same entry at the same place: they differ at most
/// in their children and their aggregate size.
pub open spec fn same_entry(a: TreeNode, b: TreeNode) -> bool {
    &&& a.key == b.key
    &&& a.own_size_bytes == b.own_size_bytes
    &&& a.parent == b.parent
    &&& a.sibling_index == b.sibling_index
    &&& a.is_dir == b.is_dir
    &&& a.depth == b.depth
}

/// The arena `mid` is `before` with one node appended: a leaf with the given
/// fields, which holds `size` bytes and hangs under `parent` (under nothing
/// where `parent` is `-1`).
pub open spec fn attached(
    before: Seq<TreeNode>,
    mid: Seq<TreeNode>,
    parent: int,
    key: Seq<char>,
    size: int,
) -> bool {
    let n = before.len() as int;
    &&& mid.len() == n + 1
    &&& -1 <= parent < n
    &&& n <= usize::MAX
    &&& forall|a: int|
        0 <= a < n ==> {
            &&& #[trigger] same_entry(before[a], mid[a])
            &&& mid[a].aggregate_size_bytes == before[a].aggregate_size_bytes
            &&& mid[a].children@ == if a == parent {
                before[a].children@.push(n as usize)
            } else {
                before[a].children@
            }
        }
    &&& mid[n].key@ == key
    &&& mid[n].own_size_bytes == size
    &&& mid[n].aggregate_size_bytes == size
    &&& mid[n].children@.len() == 0
    &&& parent_index(mid[n]) == parent
    &&& parent >= 0 ==> mid[n].sibling_index == before[parent].children@.len()
}

/// Appending a leaf under a registered parent keeps the links in order.
pub proof fn lemma_attach_links(
    before: Seq<TreeNode>,
    mid: Seq<TreeNode>,
    parent: int,
    key: Seq<char>,
    size: int,
)
    requires
        well_linked(before),
        attached(before, mid, parent, key, size),
        parent == -1 ==> before.len() == 0 && key.len() == 0,
        parent >= 0 ==> parent_of(key) == Some(before[parent].key@),
        forall|i: int| 0 <= i < before.len() ==> (#[trigger] before[i]).key@ != key,
    ensures
        well_linked(mid),
        same_parents(before, mid, before.len() as int),
        forall|i: int|
            0 <= i < before.len() ==> (#[trigger] before[i]).own_size_bytes == (
            #[trigger] mid[i]).own_size_bytes,
{
    let n = before.len() as int;
    assert forall|i: int| 0 <= i < n implies (#[trigger] before[i]).parent == (
    #[trigger] mid[i]).parent && before[i].own_size_bytes == mid[i].own_size_bytes
        && before[i].key == mid[i].key && before[i].sibling_index == mid[i].sibling_index by {
        assert(same_entry(before[i], mid[i]));
    }
    assert forall|i: int| 0 < i < mid.len() implies #[trigger] linked_up(mid, i) by {
        if i < n {
            assert(linked_up(before, i));
            let p = before[i].parent->0 as int;
            assert(same_entry(before[p], mid[p]));
        } else {
            assert(same_entry(before[parent], mid[parent]));
        }
    }
    assert forall|p: int, j: int|
        0 <= p < mid.len() && 0 <= j < mid[p].children@.len() implies #[trigger] linked_down(
        mid,
        p,
        j,
    ) by {
        if p < n {
            assert(same_entry(before[p], mid[p]));
            if j < before[p].children@.len() {
                assert(linked_down(before, p, j));
                let c = before[p].children@[j] as int;
            }
        }
    }
    assert forall|i: int, j: int| 0 <= i < j < mid.len() implies (#[trigger] mid[i]).key@ != (
    #[trigger] mid[j]).key@ by {
        assert(before[i].key@ == mid[i].key@);
        if j < n {
            assert(before[j].key@ == mid[j].key@);
        }
    }
}

/// After a leaf was appended, every node is settled but the leaf's parent,
/// which lacks the leaf's bytes.
pub proof fn lemma_attach_settled(
    before: Seq<TreeNode>,
    mid: Seq<TreeNode>,
    parent: int,
    key: Seq<char>,
    size: int,
)
    requires
        well_linked(before),
        settled_except(before, -1, 0),
        attached(before, mid, parent, key, size),
    ensures
        settled_except(mid, parent, size),
{
    let n = before.len() as int;
    assert forall|a: int| 0 <= a < mid.len() implies (#[trigger] mid[a]).aggregate_size_bytes + (
    if a == parent {
        size
    } else {
        0
    }) == mid[a].own_size_bytes + children_bytes(mid, a) by {
        if a < n {
            assert(same_entry(before[a], mid[a]));
            assert(before[a].aggregate_size_bytes + 0 == before[a].own_size_bytes + children_bytes(
                before,
                a,
            ));
            let children = before[a].children@;
            assert forall|j: int| 0 <= j < children.len() implies before[(
            #[trigger] children[j]) as int].aggregate_size_bytes
                == mid[children[j] as int].aggregate_size_bytes by {
                assert(linked_down(before, a, j));
                let c = children[j] as int;
                assert(same_entry(before[c], mid[c]));
            }
            lemma_same_children_bytes(before, mid, children, children.len() as int);
            if a == parent {
                lemma_children_bytes_push(mid, children, n as usize);
            }
        }
    }
}

/// After a registration every aggregate size is again the sum of the own
/// sizes in the node's subtree.
pub proof fn lemma_register_exact(
    before: Seq<TreeNode>,
    mid: Seq<TreeNode>,
    after: Seq<TreeNode>,
    parent: int,
    key: Seq<char>,
    size: int,
)
    requires
        well_linked(before),
        aggregates_exact(before),
        attached(before, mid, parent, key, size),
        same_parents(before, mid, before.len() as int),
        forall|i: int|
            0 <= i < before.len() ==> (#[trigger] before[i]).own_size_bytes == (
            #[trigger] mid[i]).own_size_bytes,
        same_shapes(mid, after),
        forall|a: int|
            0 <= a < mid.len() ==> (#[trigger] after[a]).aggregate_size_bytes
                == mid[a].aggregate_size_bytes + if in_subtree(mid, parent, a) {
                size
            } else {
                0
            },
    ensures
        aggregates_exact(after),
        own_bytes_upto(after, after.len() as int) == own_bytes_upto(before, before.len() as int)
            + size,
        forall|a: int|
            0 <= a < before.len() ==> (in_subtree(mid, parent, a) <==> in_subtree(
                before,
                parent,
                a,
            )),
{
    let n = before.len() as int;
    assert forall|i: int| 0 <= i < mid.len() implies (#[trigger] mid[i]).parent == (
    #[trigger] after[i]).parent && mid[i].own_size_bytes == after[i].own_size_bytes by {
        assert(same_shape(mid[i], after[i]));
    }
    if parent >= 0 {
        lemma_same_path(before, mid, n, parent);
        lemma_path_shape(before, parent);
    }
    lemma_same_path(mid, after, n + 1, n);
    lemma_same_sums(before, after, n, 0, n);
    assert forall|a: int| 0 <= a < after.len() implies (#[trigger] after[a]).aggregate_size_bytes
        == subtree_bytes(after, a) by {
        lemma_same_sums(before, after, n, a, n);
        let up = path_to_root(mid, parent);
        let whole = path_to_root(after, n);
        if a < n {
            assert(same_entry(before[a], mid[a]));
            if up.contains(a) {
                let k = choose|k: int| 0 <= k < up.len() && up[k] == a;
                assert(whole[k + 1] == a);
            }
            if whole.contains(a) {
                let k = choose|k: int| 0 <= k < whole.len() && whole[k] == a;
            }
        } else {
            lemma_subtree_of_later_node(after, n, n);
            assert(whole[0] == n);
            if up.contains(n) {
                let k = choose|k: int| 0 <= k < up.len() && up[k] == n;
            }
        }
    }
}

impl DiskUsageTree {
    /// Whether a node with this key can be registered now: it is the root, or
    /// its parent is registered.
    pub open spec fn accepts(&self, key: Seq<char>) -> bool {
        key.len() == 0 || self.has_key(parent_of(key)->0)
    }

    /// The key under which `node` is registered: its path relative to the
    /// scan root.
    pub open spec fn key_for(&self, node: &FsEntity) -> Option<Seq<char>> {
        key_of(self.spec_root_path(), node.path@)
    }

    /// Registers one entry.
    ///
    /// The entry must lie under the scan root, must not be registered yet, and
    /// the total must stay within `u64`. It becomes a new node that holds its
    /// own size, is appended to its parent's children, and adds its size to the
    /// aggregate size of every ancestor; nothing else changes. An entry whose
    /// parent is not registered is refused with `OrphanNodeError`, and the
    /// tree stays as it was.
    pub fn register(&mut self, node: &FsEntity) -> (result: Result<
        AggregateDelta,
        OrphanNodeError,
    >)
        requires
            old(self).wf(),
            old(self).key_for(node) is Some,
            !old(self).has_key(old(self).key_for(node)->0),
            old(self).spec_total_bytes() + node.spec_size_in_bytes() <= u64::MAX,
        ensures
            final(self).wf(),
            final(self).spec_root_path() == old(self).spec_root_path(),
            result is Ok <==> old(self).accepts(old(self).key_for(node)->0),
            result matches Err(e) ==> final(self)@ == old(self)@ && e.key@ == old(self).key_for(
                node,
            )->0,
            result matches Ok(delta) ==> {
                let n = old(self)@.len() as int;
                let added = final(self)@[n];
                let p = parent_index(added);
                &&& delta.node == n
                &&& delta.added_bytes == node.spec_size_in_bytes()
                &&& added.key@ == old(self).key_for(node)->0
                &&& added.own_size_bytes == node.spec_size_in_bytes()
                &&& added.aggregate_size_bytes == node.spec_size_in_bytes()
                &&& added.children@.len() == 0
                &&& added.is_dir == (node.metadata.kind == crate::fs::entity::FileKind::Dir)
                &&& added.depth == node.depth
                &&& -1 <= p < n
                &&& p == -1 <==> added.key@.len() == 0
                &&& p >= 0 ==> parent_of(added.key@) == Some(old(self)@[p].key@)
                    && added.sibling_index == old(self)@[p].children@.len()
                &&& grown_by(old(self)@, final(self)@, p, node.spec_size_in_bytes() as int)
                &&& delta.changed@.len() == if node.spec_size_in_bytes() > 0 {
                    path_to_root(old(self)@, p).len()
                } else {
                    0
                }
                &&& forall|k: int|
                    0 <= k < delta.changed@.len() ==> (#[trigger] delta.changed@[k])
                        == path_to_root(old(self)@, p)[k]
            },
            forall|a: int|
                0 <= a < old(self)@.len() ==> a < final(self)@.len() && (#[trigger] final(self)@[a]).aggregate_size_bytes
                    >= old(self)@[a].aggregate_size_bytes,
    {
        let ghost before = self.nodes@;
        let key: String = relative_key(self.root_path.as_str(), node.path.as_str()).unwrap();
        let size: u64 = node.size_in_bytes();
        let parent: Option<usize> = match parent_key(key.as_str()) {
            None => None,
            Some(parent_key) => {
                match self.find(&parent_key) {
                    Some(p) => Some(p),
                    None => {
                        return Err(OrphanNodeError { key });
                    },
                }
            },
        };
        let ghost p: int = match parent {
            Some(q) => q as int,
            None => -1,
        };
        let index: usize = self.nodes.len();
        let sibling_index: usize = match parent {
            Some(q) => self.nodes[q].children.len(),
            None => 0,
        };
        proof {
            if parent is None {
                if before.len() > 0 {
                    assert(before[0].key@ == key@);
                }
            }
        }
        self.nodes.push(
            TreeNode {
                key,
                own_size_bytes: size,
                aggregate_size_bytes: size,
                parent,
                children: Vec::new(),
                sibling_index,
                is_dir: node.is_dir(),
                depth: node.depth,
            },
        );
        match parent {
            Some(q) => {
                self.nodes[q].children.push(index);
            },
            None => {},
        }
        let ghost mid = self.nodes@;
        let ghost key_spec = mid[index as int].key@;
        proof {
            lemma_attach_links(before, mid, p, key_spec, size as int);
            lemma_attach_settled(before, mid, p, key_spec, size as int);
            if p >= 0 {
                lemma_same_path(before, mid, before.len() as int, p);
            }
            assert forall|a: int| 0 <= a <= p implies (#[trigger] mid[a]).aggregate_size_bytes
                + size <= u64::MAX by {
                lemma_subtree_within_total(before, a, before.len() as int);
            }
        }
        let changed: Vec<usize> = match parent {
            Some(q) => {
                if size > 0 {
                    self.add_to_ancestors(q, size)
                } else {
                    Vec::new()
                }
            },
            None => Vec::new(),
        };
        proof {
            let after = self.nodes@;
            lemma_shapes_keep_links(mid, after);
            lemma_register_exact(before, mid, after, p, key_spec, size as int);
            assert forall|a: int| 0 <= a < before.len() implies {
                &&& (#[trigger] after[a]).key == before[a].key
                &&& after[a].own_size_bytes == before[a].own_size_bytes
                &&& after[a].parent == before[a].parent
                &&& after[a].sibling_index == before[a].sibling_index
                &&& after[a].is_dir == before[a].is_dir
                &&& after[a].depth == before[a].depth
                &&& after[a].children@ == if a == p {
                    before[a].children@.push(before.len() as usize)
                } else {
                    before[a].children@
                }
                &&& after[a].aggregate_size_bytes == before[a].aggregate_size_bytes + if in_subtree(
                    before,
                    p,
                    a,
                ) {
                    size as int
                } else {
                    0
                }
            } by {
                assert(same_shape(mid[a], after[a]));
            }
            assert(same_shape(mid[index as int], after[index as int]));
        }
        Ok(AggregateDelta { node: index, added_bytes: size, changed })
    }
}

} // verus!

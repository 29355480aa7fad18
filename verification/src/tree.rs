//! The arena tree: nodes linked by stable indices into an append-only store,
//! and a pre-order traversal over a finished, well-formed tree.

use vstd::prelude::*;

verus! {

/// A value-holding cell with optional links to a parent and up to two
/// children, all expressed as indices into the owning arena.
#[derive(Clone, Copy, Debug, PartialEq)]
pub struct TreeNode {
    pub value: i64,
    pub parent: Option<usize>,
    pub left: Option<usize>,
    pub right: Option<usize>,
}

impl TreeNode {
    /// A leaf: value only, every link absent.
    pub fn from_value(value: i64) -> (n: TreeNode)
        ensures
            n == (TreeNode { value, parent: None, left: None, right: None }),
    {
        TreeNode { value, parent: None, left: None, right: None }
    }

    /// A fully specified node; the parent link of a fresh internal node is
    /// absent and is filled in later by the owner.
    pub fn new(value: i64, left: Option<usize>, right: Option<usize>, parent: Option<usize>) -> (n: TreeNode)
        ensures
            n == (TreeNode { value, parent, left, right }),
    {
        TreeNode { value, parent, left, right }
    }
}

/// The larger of two values.
pub open spec fn max_val(a: i64, b: i64) -> i64 {
    if a >= b {
        a
    } else {
        b
    }
}

/// A node with both children absent.
pub open spec fn is_leaf(n: TreeNode) -> bool {
    n.left is None && n.right is None
}

/// A node with both children present.
pub open spec fn is_internal(n: TreeNode) -> bool {
    n.left is Some && n.right is Some
}

/// Child links agree only with the two fields `value`, `left`, `right`;
/// the parent link is free to differ.
pub open spec fn same_shape(a: TreeNode, b: TreeNode) -> bool {
    a.value == b.value && a.left == b.left && a.right == b.right
}

/// Well-formedness of the node stored at index `i`: children are either both
/// absent or both present, children lie strictly below `i` (nodes are
/// appended after their children, which also makes the structure acyclic),
/// an internal node holds the maximum of its two children, and a parent link
/// points above `i` to a node that lists `i` as one of its children.
pub open spec fn node_wf(nodes: Seq<TreeNode>, i: int) -> bool {
    let n = nodes[i];
    &&& match (n.left, n.right) {
        (Some(l), Some(r)) => {
            &&& (l as int) < i
            &&& (r as int) < i
            &&& n.value == max_val(nodes[l as int].value, nodes[r as int].value)
        },
        (None, None) => true,
        _ => false,
    }
    &&& match n.parent {
        Some(p) => {
            &&& i < (p as int) < nodes.len()
            &&& (nodes[p as int].left == Some(i as usize) || nodes[p as int].right == Some(i as usize))
        },
        None => true,
    }
}

/// The leaf values under index `i`, read left to right.
pub open spec fn leaves_of(nodes: Seq<TreeNode>, i: int) -> Seq<i64>
    decreases i,
{
    if i < 0 || i >= nodes.len() {
        seq![]
    } else {
        let n = nodes[i];
        match (n.left, n.right) {
            (Some(l), Some(r)) => {
                (if (l as int) < i {
                    leaves_of(nodes, l as int)
                } else {
                    seq![]
                }) + (if (r as int) < i {
                    leaves_of(nodes, r as int)
                } else {
                    seq![]
                })
            },
            _ => seq![n.value],
        }
    }
}

/// The pre-order value sequence of the subtree rooted at index `i`: the node
/// itself, then its left subtree, then its right subtree.
pub open spec fn preorder_of(nodes: Seq<TreeNode>, i: int) -> Seq<i64>
    decreases i,
{
    if i < 0 || i >= nodes.len() {
        seq![]
    } else {
        let n = nodes[i];
        let left_part = match n.left {
            Some(l) => if (l as int) < i {
                preorder_of(nodes, l as int)
            } else {
                seq![]
            },
            None => seq![],
        };
        let right_part = match n.right {
            Some(r) => if (r as int) < i {
                preorder_of(nodes, r as int)
            } else {
                seq![]
            },
            None => seq![],
        };
        seq![n.value] + left_part + right_part
    }
}

/// An arena: append-only node storage plus a designated root index. A node's
/// index is fixed at insertion and never reused or invalidated.
pub struct Tree {
    pub arena: Vec<TreeNode>,
    pub root: Option<usize>,
}

impl Tree {
    /// Every stored node is well formed and the root, if set, is in range.
    pub open spec fn wf(self) -> bool {
        &&& forall|i: int| 0 <= i < self.arena@.len() ==> node_wf(self.arena@, i)
        &&& match self.root {
            Some(r) => (r as int) < self.arena@.len(),
            None => true,
        }
    }

    /// The pre-order value sequence from the designated root; empty when no
    /// root is set.
    pub open spec fn preorder_seq(self) -> Seq<i64> {
        match self.root {
            Some(r) => preorder_of(self.arena@, r as int),
            None => seq![],
        }
    }

    /// An empty arena with no root.
    pub fn new() -> (t: Tree)
        ensures
            t.arena@.len() == 0,
            t.root is None,
            t.wf(),
    {
        Tree { arena: Vec::new(), root: None }
    }

    /// Appends `node` and returns its permanent index.
    pub fn add_node(&mut self, node: TreeNode) -> (i: usize)
        ensures
            i == old(self).arena@.len(),
            final(self).arena@ == old(self).arena@.push(node),
            final(self).root == old(self).root,
    {
        let i: usize = self.arena.len();
        self.arena.push(node);
        i
    }

    /// Node lookup by index; `None` exactly when the index was never assigned.
    pub fn node_at(&self, i: usize) -> (r: Option<TreeNode>)
        ensures
            (i as int) < self.arena@.len() ==> r == Some(self.arena@[i as int]),
            (i as int) >= self.arena@.len() ==> r is None,
    {
        if i < self.arena.len() {
            Some(self.arena[i])
        } else {
            None
        }
    }

    /// Mutable access in the one form construction needs: setting the parent
    /// link of an already stored node. Value and child links never change.
    pub fn set_parent(&mut self, i: usize, parent: usize)
        requires
            (i as int) < old(self).arena@.len(),
        ensures
            final(self).arena@ == old(self).arena@.update(
                i as int,
                (TreeNode { parent: Some(parent), ..old(self).arena@[i as int] }),
            ),
            final(self).root == old(self).root,
    {
        let n = self.arena[i];
        self.arena.set(i, TreeNode { parent: Some(parent), ..n });
    }

    /// Records which index is the traversal entry point.
    pub fn set_root(&mut self, root: Option<usize>)
        ensures
            final(self).arena@ == old(self).arena@,
            final(self).root == root,
    {
        self.root = root;
    }

    /// Number of nodes held by the arena.
    pub fn node_count(&self) -> (n: usize)
        ensures
            n == self.arena@.len(),
    {
        self.arena.len()
    }
}

/// Read-only pre-order walk over a finished tree.
pub struct PreOrderVisitor;

impl PreOrderVisitor {
    /// Visits every node before its children, left child before right child,
    /// starting at the root. The result equals `preorder_seq`, a function of
    /// the tree alone, so repeated traversals of the same tree agree.
    pub fn recursive(tree: &Tree) -> (r: Vec<i64>)
        requires
            tree.wf(),
        ensures
            r@ == tree.preorder_seq(),
    {
        let mut out: Vec<i64> = Vec::new();
        match tree.root {
            Some(ri) => {
                pre_order_from(tree, ri, &mut out);
            },
            None => {},
        }
        out
    }
}

/// Appends to `out` the pre-order sequence of the subtree rooted at `i`.
fn pre_order_from(tree: &Tree, i: usize, out: &mut Vec<i64>)
    requires
        tree.wf(),
        (i as int) < tree.arena@.len(),
    ensures
        final(out)@ == old(out)@ + preorder_of(tree.arena@, i as int),
    decreases i,
{
    proof {
        assert(node_wf(tree.arena@, i as int));
    }
    let n = tree.arena[i];
    out.push(n.value);
    match n.left {
        Some(l) => {
            pre_order_from(tree, l, out);
        },
        None => {},
    }
    match n.right {
        Some(r) => {
            pre_order_from(tree, r, out);
        },
        None => {},
    }
    proof {
        assert(out@ =~= old(out)@ + preorder_of(tree.arena@, i as int));
    }
}

/// Traversal is restartable: the pre-order sequence is a function of the tree
/// alone, so two traversals of the same unmodified tree yield identical
/// sequences.
pub proof fn lemma_preorder_idempotent(t: &Tree, r1: Seq<i64>, r2: Seq<i64>)
    requires
        r1 == t.preorder_seq(),
        r2 == t.preorder_seq(),
    ensures
        r1 == r2,
{
}

/// In a well-formed tree, every internal node with two children holds the
/// maximum of the two children's values.
pub proof fn lemma_internal_value_is_max(t: &Tree, i: int, l: usize, r: usize)
    requires
        t.wf(),
        0 <= i < t.arena@.len(),
        t.arena@[i].left == Some(l),
        t.arena@[i].right == Some(r),
    ensures
        t.arena@[i].value == max_val(t.arena@[l as int].value, t.arena@[r as int].value),
{
    assert(node_wf(t.arena@, i));
}

/// A tree holding a single leaf designated as root traverses to exactly that
/// leaf's value.
pub proof fn lemma_singleton_preorder(t: &Tree, x: i64)
    requires
        t.arena@.len() == 1,
        t.arena@[0].value == x,
        is_leaf(t.arena@[0]),
        t.root == Some(0usize),
    ensures
        t.preorder_seq() == seq![x],
{
    assert(t.preorder_seq() =~= seq![x]);
}

/// Two arenas that agree on value and child links over the shorter one's
/// whole length (parent links are free to differ, and the longer one may hold
/// extra nodes) have the same leaf sequences below any index of the shorter.
pub proof fn lemma_leaves_stable(n1: Seq<TreeNode>, n2: Seq<TreeNode>, i: int)
    requires
        n1.len() <= n2.len(),
        forall|j: int| 0 <= j < n1.len() ==> same_shape(#[trigger] n1[j], n2[j]),
        i < n1.len(),
    ensures
        leaves_of(n2, i) == leaves_of(n1, i),
    decreases i,
{
    if 0 <= i {
        assert(same_shape(n1[i], n2[i]));
        let n = n1[i];
        match (n.left, n.right) {
            (Some(l), Some(r)) => {
                if (l as int) < i {
                    lemma_leaves_stable(n1, n2, l as int);
                }
                if (r as int) < i {
                    lemma_leaves_stable(n1, n2, r as int);
                }
            },
            _ => {},
        }
    }
}

} // verus!

//! Bottom-up construction of a tournament (winner) tree from an input
//! sequence: the improvement on selection sort starts from this tree.

use crate::tree::is_internal;
use crate::tree::is_leaf;
use crate::tree::leaves_of;
use crate::tree::lemma_leaves_stable;
use crate::tree::max_val;
use crate::tree::node_wf;
use crate::tree::same_shape;
use crate::tree::Tree;
use crate::tree::TreeNode;
use vstd::prelude::*;

verus! {

/// The largest value in `s`, taken over an empty sequence as `i64::MIN`.
pub open spec fn seq_max(s: Seq<i64>) -> i64
    decreases s.len(),
{
    if s.len() == 0 {
        i64::MIN
    } else {
        max_val(seq_max(s.drop_last()), s.last())
    }
}

/// The maximum of a non-empty sequence is one of its elements and bounds
/// them all.
pub proof fn lemma_seq_max_properties(s: Seq<i64>)
    requires
        s.len() > 0,
    ensures
        s.contains(seq_max(s)),
        forall|k: int| 0 <= k < s.len() ==> s[k] <= seq_max(s),
    decreases s.len(),
{
    if s.len() == 1 {
        assert(seq_max(s.drop_last()) == i64::MIN);
        assert(seq_max(s) == s[0]);
        assert(s.contains(s[0]));
    } else {
        let s0 = s.drop_last();
        lemma_seq_max_properties(s0);
        let m0 = seq_max(s0);
        if s.last() >= m0 {
            assert(seq_max(s) == s.last());
            assert(s[s.len() - 1] == s.last());
            assert(s.contains(s.last()));
        } else {
            assert(seq_max(s) == m0);
            let k = choose|k: int| 0 <= k < s0.len() && s0[k] == m0;
            assert(s[k] == m0);
            assert(s.contains(m0));
        }
        assert forall|k: int| 0 <= k < s.len() implies s[k] <= seq_max(s) by {
            if k < s.len() - 1 {
                assert(s0[k] == s[k]);
            }
        }
    }
}

/// The maximum of a concatenation is the larger of the two maxima.
pub proof fn lemma_seq_max_concat(s: Seq<i64>, t: Seq<i64>)
    ensures
        seq_max(s + t) == max_val(seq_max(s), seq_max(t)),
    decreases t.len(),
{
    if t.len() == 0 {
        assert(s + t =~= s);
        assert(seq_max(t) == i64::MIN);
    } else {
        lemma_seq_max_concat(s, t.drop_last());
        assert((s + t).drop_last() =~= s + t.drop_last());
        assert((s + t).last() == t.last());
    }
}

/// The maximum of a one-element sequence is that element.
pub proof fn lemma_seq_max_singleton(v: i64)
    ensures
        seq_max(seq![v]) == v,
{
    assert(seq![v].drop_last() =~= Seq::<i64>::empty());
    assert(seq_max(seq![v].drop_last()) == i64::MIN);
    assert(seq![v].last() == v);
}

/// The leaf values under a whole level of subtree roots, concatenated left
/// to right.
spec fn level_leaves(nodes: Seq<TreeNode>, level: Seq<usize>) -> Seq<i64>
    decreases level.len(),
{
    if level.len() == 0 {
        seq![]
    } else {
        level_leaves(nodes, level.drop_last()) + leaves_of(nodes, level.last() as int)
    }
}

/// Appending one more subtree root to a level appends its leaves.
proof fn lemma_level_leaves_push(nodes: Seq<TreeNode>, level: Seq<usize>, x: usize)
    ensures
        level_leaves(nodes, level.push(x)) == level_leaves(nodes, level) + leaves_of(
            nodes,
            x as int,
        ),
{
    assert(level.push(x).drop_last() =~= level);
    assert(level.push(x).last() == x);
}

/// Arenas that agree on value and child links over the shorter one's whole
/// length give a level the same leaves.
proof fn lemma_level_leaves_stable(n1: Seq<TreeNode>, n2: Seq<TreeNode>, level: Seq<usize>)
    requires
        n1.len() <= n2.len(),
        forall|j: int| 0 <= j < n1.len() ==> same_shape(#[trigger] n1[j], n2[j]),
        forall|k: int| 0 <= k < level.len() ==> (#[trigger] level[k]) < n1.len(),
    ensures
        level_leaves(n2, level) == level_leaves(n1, level),
    decreases level.len(),
{
    if level.len() > 0 {
        lemma_level_leaves_stable(n1, n2, level.drop_last());
        lemma_leaves_stable(n1, n2, level.last() as int);
    }
}

/// The subtree-root indices of the level that follows `level`, when the
/// arena holds `base` nodes as the round starts: one fresh merge node per
/// complete pair, in order, then the odd leftover carried forward unchanged.
pub open spec fn next_level_base(level: Seq<usize>, base: nat) -> Seq<usize> {
    Seq::new(level.len() / 2, |k: int| (base + k) as usize) + if level.len() % 2 == 1 {
        seq![level[level.len() - 1]]
    } else {
        seq![]
    }
}

/// The subtree-root indices of round `t` of the construction over `n` input
/// elements: round 0 holds the leaves `0 .. n`, and each following round is
/// `next_level_base` of the one before.
pub open spec fn level_at(n: nat, t: nat) -> Seq<usize>
    decreases t,
{
    if t == 0 {
        Seq::new(n, |i: int| i as usize)
    } else {
        next_level_base(level_at(n, (t - 1) as nat), base_at(n, (t - 1) as nat))
    }
}

/// The arena length as round `t` starts: `n` leaves plus one node per merge
/// performed in earlier rounds.
pub open spec fn base_at(n: nat, t: nat) -> nat
    decreases t,
{
    if t == 0 {
        n
    } else {
        base_at(n, (t - 1) as nat) + level_at(n, (t - 1) as nat).len() / 2
    }
}

/// Once a round is down to a single subtree root, every later round carries
/// that same single root.
pub proof fn lemma_level_singleton_stays(n: nat, t: nat, t2: nat)
    requires
        level_at(n, t).len() == 1,
        t <= t2,
    ensures
        level_at(n, t2).len() == 1,
    decreases t2,
{
    if t2 > t {
        lemma_level_singleton_stays(n, t, (t2 - 1) as nat);
    }
}

/// When a round holds an odd number of subtree roots, its unpaired last
/// root advances to the next round unchanged: no node is created for it and
/// it keeps its place at the end of the new level.
pub proof fn lemma_odd_leftover_carried(n: nat, t: nat)
    requires
        level_at(n, t).len() % 2 == 1,
    ensures
        level_at(n, t + 1).last() == level_at(n, t).last(),
{
    let lvl = level_at(n, t);
    let nxt = level_at(n, t + 1);
    assert(nxt == next_level_base(lvl, base_at(n, t)));
    assert(nxt.len() == lvl.len() / 2 + 1);
    assert(nxt.last() == lvl[lvl.len() - 1]);
}

/// The `k`-th merge node of round `t` sits at arena index `base_at + k` and
/// its children are the `2k`-th and `2k+1`-th subtree roots of that round.
pub open spec fn round_children_ok(nodes: Seq<TreeNode>, n: nat, t: nat, k: int) -> bool {
    let lvl = level_at(n, t);
    let p = base_at(n, t) + k;
    &&& p < nodes.len()
    &&& nodes[p as int].left == Some(lvl[2 * k])
    &&& nodes[p as int].right == Some(lvl[2 * k + 1])
}

/// `i` occurs in `level` at some position at or after `lo`.
spec fn in_level(level: Seq<usize>, lo: int, i: int) -> bool {
    exists|p: int| lo <= p < level.len() && (level[p] as int) == i
}

/// One merge step keeps every arena fact the construction relies on: the
/// step appends one internal node over two existing subtree roots and sets
/// their parent links, so well-formedness, the leaf prefix and every leaf
/// sequence below an existing index survive, and the fresh node gathers the
/// leaves of the merged pair.
proof fn lemma_merge_arena_facts(
    pre: Seq<TreeNode>,
    cur: Seq<TreeNode>,
    a: Seq<i64>,
    t1: usize,
    t2: usize,
    node_i: usize,
)
    requires
        (t1 as int) < pre.len(),
        (t2 as int) < pre.len(),
        node_i as int == pre.len(),
        cur.len() == pre.len() + 1,
        forall|i: int| 0 <= i < pre.len() ==> same_shape(#[trigger] pre[i], cur[i]),
        forall|i: int|
            0 <= i < pre.len() && i != t1 as int && i != t2 as int ==> (#[trigger] cur[i])
                == pre[i],
        cur[t1 as int].parent == Some(node_i),
        cur[t2 as int].parent == Some(node_i),
        cur[node_i as int].left == Some(t1),
        cur[node_i as int].right == Some(t2),
        cur[node_i as int].parent is None,
        cur[node_i as int].value == max_val(pre[t1 as int].value, pre[t2 as int].value),
        forall|i: int| 0 <= i < pre.len() ==> node_wf(pre, i),
        a.len() <= pre.len(),
        forall|i: int| 0 <= i < a.len() ==> is_leaf(#[trigger] pre[i]) && pre[i].value == a[i],
        forall|i: int| a.len() <= i < pre.len() ==> is_internal(#[trigger] pre[i]),
    ensures
        forall|i: int| 0 <= i < cur.len() ==> node_wf(cur, i),
        forall|i: int| 0 <= i < pre.len() ==> leaves_of(cur, i) == leaves_of(pre, i),
        leaves_of(cur, node_i as int) == leaves_of(pre, t1 as int) + leaves_of(pre, t2 as int),
        forall|i: int| 0 <= i < a.len() ==> is_leaf(#[trigger] cur[i]) && cur[i].value == a[i],
        forall|i: int| a.len() <= i < cur.len() ==> is_internal(#[trigger] cur[i]),
{
    assert forall|i: int| 0 <= i < cur.len() implies node_wf(cur, i) by {
        if i < pre.len() {
            assert(node_wf(pre, i));
        }
    }
    assert forall|i: int| 0 <= i < pre.len() implies leaves_of(cur, i) == leaves_of(pre, i) by {
        lemma_leaves_stable(pre, cur, i);
    }
    assert(leaves_of(cur, node_i as int) == leaves_of(cur, t1 as int) + leaves_of(
        cur,
        t2 as int,
    ));
}

/// Merge links recorded in earlier rounds survive any step that keeps value
/// and child links of the nodes already stored.
proof fn lemma_children_records_stable(pre: Seq<TreeNode>, cur: Seq<TreeNode>, n: nat, round: nat)
    requires
        pre.len() <= cur.len(),
        forall|i: int| 0 <= i < pre.len() ==> same_shape(#[trigger] pre[i], cur[i]),
        forall|t: nat, k: int|
            t < round && 0 <= k < level_at(n, t).len() / 2 ==> #[trigger] round_children_ok(
                pre,
                n,
                t,
                k,
            ),
    ensures
        forall|t: nat, k: int|
            t < round && 0 <= k < level_at(n, t).len() / 2 ==> #[trigger] round_children_ok(
                cur,
                n,
                t,
                k,
            ),
{
    assert forall|t: nat, k: int|
        t < round && 0 <= k < level_at(n, t).len() / 2 implies #[trigger] round_children_ok(
        cur,
        n,
        t,
        k,
    ) by {
        assert(round_children_ok(pre, n, t, k));
        let p = base_at(n, t) + k;
        assert(same_shape(pre[p as int], cur[p as int]));
    }
}

/// One merge step keeps the book on parent links: the nodes whose parent is
/// still unset are exactly the subtree roots not yet merged this round plus
/// the fresh nodes of the next level.
proof fn lemma_parent_step(
    pre: Seq<TreeNode>,
    cur: Seq<TreeNode>,
    level0: Seq<usize>,
    prenew: Seq<usize>,
    newn: Seq<usize>,
    j: int,
    node_i: usize,
    base: int,
)
    requires
        0 <= j,
        j + 1 < level0.len(),
        forall|p: int, q: int| 0 <= p < q < level0.len() ==> level0[p] != level0[q],
        forall|p: int| 0 <= p < level0.len() ==> (#[trigger] level0[p]) < base,
        base <= pre.len(),
        node_i as int == pre.len(),
        cur.len() == pre.len() + 1,
        forall|k: int| 0 <= k < prenew.len() ==> (#[trigger] prenew[k]) as int == base + k,
        newn == prenew.push(node_i),
        forall|i: int|
            0 <= i < pre.len() ==> ((#[trigger] pre[i]).parent is None <==> in_level(level0, j, i)
                || in_level(prenew, 0, i)),
        cur[node_i as int].parent is None,
        cur[level0[j] as int].parent is Some,
        cur[level0[j + 1] as int].parent is Some,
        forall|i: int|
            0 <= i < pre.len() && i != level0[j] as int && i != level0[j + 1] as int ==> (
            #[trigger] cur[i]).parent == pre[i].parent,
    ensures
        forall|i: int|
            0 <= i < cur.len() ==> ((#[trigger] cur[i]).parent is None <==> in_level(
                level0,
                j + 2,
                i,
            ) || in_level(newn, 0, i)),
{
    assert forall|i: int| 0 <= i < cur.len() implies ((#[trigger] cur[i]).parent is None
        <==> in_level(level0, j + 2, i) || in_level(newn, 0, i)) by {
        let t1 = level0[j] as int;
        let t2 = level0[j + 1] as int;
        if i == node_i as int {
            assert(newn[prenew.len() as int] == node_i);
            assert(in_level(newn, 0, i));
        } else if i == t1 || i == t2 {
            if in_level(level0, j + 2, i) {
                let p = choose|p: int| j + 2 <= p < level0.len() && (level0[p] as int) == i;
                assert(level0[p] != level0[j] && level0[p] != level0[j + 1]);
                assert(false);
            }
            if in_level(newn, 0, i) {
                let p = choose|p: int| 0 <= p < newn.len() && (newn[p] as int) == i;
                if p < prenew.len() {
                    assert((prenew[p] as int) == base + p);
                } else {
                    assert(newn[p] == node_i);
                }
                assert(false);
            }
        } else {
            assert(i < pre.len());
            assert(cur[i].parent == pre[i].parent);
            if cur[i].parent is None {
                if in_level(level0, j, i) {
                    let p = choose|p: int| j <= p < level0.len() && (level0[p] as int) == i;
                    assert(p != j && p != j + 1);
                    assert(in_level(level0, j + 2, i));
                }
                if in_level(prenew, 0, i) {
                    let p = choose|p: int| 0 <= p < prenew.len() && (prenew[p] as int) == i;
                    assert(newn[p] == prenew[p]);
                    assert(in_level(newn, 0, i));
                }
            }
            if in_level(level0, j + 2, i) {
                let p = choose|p: int| j + 2 <= p < level0.len() && (level0[p] as int) == i;
                assert(in_level(level0, j, i));
                assert(pre[i].parent is None);
            }
            if in_level(newn, 0, i) {
                let p = choose|p: int| 0 <= p < newn.len() && (newn[p] as int) == i;
                if p < prenew.len() {
                    assert(prenew[p] as int == i);
                    assert(in_level(prenew, 0, i));
                    assert(pre[i].parent is None);
                } else {
                    assert(newn[p] == node_i);
                    assert(false);
                }
            }
        }
    }
}

/// Builds the tournament tree of `a` from bottom to top: one leaf per input
/// element, in input order, then one merge round per level. Each complete
/// pair of a level is merged under a fresh internal node holding the larger
/// of the two values; an odd leftover is carried forward unchanged. The last
/// node inserted is recorded as root and holds the maximum of the input.
/// An empty input yields the explicitly empty tree: no nodes, no root.
#[verifier::rlimit(80)]
pub fn build_tournament_tree(a: &[i64]) -> (tree: Tree)
    ensures
        tree.wf(),
        a@.len() <= tree.arena@.len(),
        forall|i: int|
            0 <= i < a@.len() ==> is_leaf(#[trigger] tree.arena@[i]) && tree.arena@[i].value
                == a@[i],
        forall|i: int| a@.len() <= i < tree.arena@.len() ==> is_internal(#[trigger] tree.arena@[i]),
        a@.len() == 0 ==> tree.arena@.len() == 0 && tree.root is None,
        a@.len() > 0 ==> {
            &&& tree.arena@.len() == 2 * a@.len() - 1
            &&& tree.root == Some((tree.arena@.len() - 1) as usize)
            &&& tree.arena@[tree.arena@.len() - 1].value == seq_max(a@)
            &&& leaves_of(tree.arena@, tree.arena@.len() - 1) == a@
            &&& forall|t: nat, k: int|
                0 <= k < level_at(a@.len(), t).len() / 2 ==> #[trigger] round_children_ok(
                    tree.arena@,
                    a@.len(),
                    t,
                    k,
                )
            &&& forall|i: int|
                0 <= i < tree.arena@.len() - 1 ==> (#[trigger] tree.arena@[i]).parent is Some
            &&& tree.arena@[tree.arena@.len() - 1].parent is None
        },
{
    let mut tree = Tree::new();
    if a.len() == 0 {
        return tree;
    }

    // build leaves, one per input element, in order
    let mut nodes: Vec<usize> = Vec::new();
    let mut k: usize = 0;
    while k < a.len()
        invariant
            k <= a.len(),
            tree.arena@.len() == k,
            tree.root is None,
            nodes@.len() == k,
            forall|j: int| 0 <= j < k ==> (#[trigger] nodes@[j]) == j,
            forall|j: int|
                0 <= j < k ==> is_leaf(#[trigger] tree.arena@[j]) && tree.arena@[j].value == a@[j]
                    && tree.arena@[j].parent is None,
            level_leaves(tree.arena@, nodes@) == a@.subrange(0, k as int),
        decreases a.len() - k,
    {
        let ghost prearena = tree.arena@;
        let ghost prenodes = nodes@;
        let node = TreeNode::from_value(a[k]);
        let i: usize = tree.add_node(node);
        nodes.push(i);
        proof {
            lemma_level_leaves_stable(prearena, tree.arena@, prenodes);
            lemma_level_leaves_push(tree.arena@, prenodes, i);
            assert(leaves_of(tree.arena@, k as int) == seq![a@[k as int]]);
            assert(a@.subrange(0, (k + 1) as int) =~= a@.subrange(0, k as int).push(
                a@[k as int],
            ));
        }
        k += 1;
    }

    let ghost mut round: nat = 0;
    proof {
        assert(a@.subrange(0, a@.len() as int) =~= a@);
        assert forall|j: int| 0 <= j < tree.arena@.len() implies node_wf(tree.arena@, j) by {}
        assert forall|t: int| #![trigger nodes@[t]] 0 <= t < nodes@.len() implies tree.arena@[
            nodes@[t] as int
        ].value == seq_max(leaves_of(tree.arena@, nodes@[t] as int)) by {
            assert(leaves_of(tree.arena@, t) == seq![a@[t]]);
            lemma_seq_max_singleton(a@[t]);
        }
        assert(nodes@ =~= level_at(a@.len(), 0));
        assert(base_at(a@.len(), 0) == a@.len());
        assert forall|i: int| 0 <= i < tree.arena@.len() implies ((#[trigger] tree.arena@[i]).parent
            is None <==> in_level(nodes@, 0, i)) by {
            assert((nodes@[i] as int) == i);
            assert(in_level(nodes@, 0, i));
        }
    }

    // merge pairs level by level until a single subtree root remains
    while nodes.len() > 1
        invariant
            a@.len() >= 1,
            a@.len() <= tree.arena@.len(),
            tree.root is None,
            nodes@.len() >= 1,
            tree.arena@.len() + nodes@.len() == 2 * a@.len(),
            forall|j: int| 0 <= j < nodes@.len() ==> (#[trigger] nodes@[j]) < tree.arena@.len(),
            forall|j: int| 0 <= j < tree.arena@.len() ==> node_wf(tree.arena@, j),
            forall|j: int|
                0 <= j < a@.len() ==> is_leaf(#[trigger] tree.arena@[j]) && tree.arena@[j].value
                    == a@[j],
            forall|j: int| a@.len() <= j < tree.arena@.len() ==> is_internal(#[trigger] tree.arena@[j]),
            level_leaves(tree.arena@, nodes@) == a@,
            forall|t: int| #![trigger nodes@[t]]
                0 <= t < nodes@.len() ==> tree.arena@[nodes@[t] as int].value == seq_max(
                    leaves_of(tree.arena@, nodes@[t] as int),
                ),
            nodes@.len() == 1 ==> nodes@[0] as int == tree.arena@.len() - 1,
            nodes@ == level_at(a@.len(), round),
            tree.arena@.len() == base_at(a@.len(), round),
            forall|t: nat, k: int|
                t < round && 0 <= k < level_at(a@.len(), t).len() / 2 ==> #[trigger] round_children_ok(
                    tree.arena@,
                    a@.len(),
                    t,
                    k,
                ),
            forall|i: int|
                0 <= i < tree.arena@.len() ==> ((#[trigger] tree.arena@[i]).parent is None
                    <==> in_level(nodes@, 0, i)),
            forall|p: int, q: int| 0 <= p < q < nodes@.len() ==> nodes@[p] != nodes@[q],
        decreases nodes@.len(),
    {
        let ghost arena0 = tree.arena@;
        let ghost level0 = nodes@;
        let m: usize = nodes.len();
        let mut new_nodes: Vec<usize> = Vec::new();
        let mut j: usize = 0;
        while j + 1 < m
            invariant
                a@.len() >= 1,
                m == level0.len(),
                m >= 2,
                nodes@ == level0,
                nodes@.len() == m,
                j % 2 == 0,
                j <= m,
                tree.root is None,
                a@.len() <= arena0.len(),
                arena0.len() <= tree.arena@.len(),
                tree.arena@.len() == arena0.len() + j / 2,
                new_nodes@.len() == j / 2,
                forall|t: int| 0 <= t < arena0.len() ==> same_shape(#[trigger] arena0[t], tree.arena@[t]),
                forall|t: int| 0 <= t < level0.len() ==> (#[trigger] level0[t]) < arena0.len(),
                forall|t: int| 0 <= t < tree.arena@.len() ==> node_wf(tree.arena@, t),
                forall|t: int|
                    0 <= t < a@.len() ==> is_leaf(#[trigger] tree.arena@[t]) && tree.arena@[t].value
                        == a@[t],
                forall|t: int|
                    a@.len() <= t < tree.arena@.len() ==> is_internal(#[trigger] tree.arena@[t]),
                forall|t: int| 0 <= t < new_nodes@.len() ==> (#[trigger] new_nodes@[t]) < tree.arena@.len(),
                level_leaves(tree.arena@, new_nodes@) == level_leaves(
                    tree.arena@,
                    level0.subrange(0, j as int),
                ),
                level_leaves(tree.arena@, level0) == a@,
                forall|t: int| #![trigger level0[t]]
                    0 <= t < level0.len() ==> tree.arena@[level0[t] as int].value == seq_max(
                        leaves_of(tree.arena@, level0[t] as int),
                    ),
                forall|t: int| #![trigger new_nodes@[t]]
                    0 <= t < new_nodes@.len() ==> tree.arena@[new_nodes@[t] as int].value == seq_max(
                        leaves_of(tree.arena@, new_nodes@[t] as int),
                    ),
                new_nodes@.len() >= 1 ==> new_nodes@[new_nodes@.len() - 1] as int == tree.arena@.len()
                    - 1,
                level_at(a@.len(), round) == level0,
                base_at(a@.len(), round) == arena0.len(),
                forall|t: nat, k: int|
                    t < round && 0 <= k < level_at(a@.len(), t).len() / 2 ==> #[trigger] round_children_ok(
                        tree.arena@,
                        a@.len(),
                        t,
                        k,
                    ),
                forall|k: int| 0 <= k < j / 2 ==> #[trigger] round_children_ok(
                    tree.arena@,
                    a@.len(),
                    round,
                    k,
                ),
                forall|k: int|
                    0 <= k < new_nodes@.len() ==> (#[trigger] new_nodes@[k]) as int == arena0.len()
                        + k,
                forall|i: int|
                    0 <= i < tree.arena@.len() ==> ((#[trigger] tree.arena@[i]).parent is None
                        <==> in_level(level0, j as int, i) || in_level(new_nodes@, 0, i)),
                forall|p: int, q: int| 0 <= p < q < level0.len() ==> level0[p] != level0[q],
            decreases m - j,
        {
            let t1: usize = nodes[j];
            let t2: usize = nodes[j + 1];
            let ghost pre = tree.arena@;
            let ghost prenew = new_nodes@;
            let n1 = tree.node_at(t1).unwrap();
            let n2 = tree.node_at(t2).unwrap();
            let value: i64 = if n1.value >= n2.value {
                n1.value
            } else {
                n2.value
            };
            let node = TreeNode::new(value, Some(t1), Some(t2), None);
            let node_i: usize = tree.add_node(node);
            tree.set_parent(t1, node_i);
            tree.set_parent(t2, node_i);
            new_nodes.push(node_i);
            proof {
                let cur = tree.arena@;
                // the arena still agrees with its past on value and child links
                assert forall|t: int| 0 <= t < pre.len() implies same_shape(
                    #[trigger] pre[t],
                    cur[t],
                ) by {}
                assert forall|t: int|
                    0 <= t < pre.len() && t != t1 as int && t != t2 as int implies (
                #[trigger] cur[t]) == pre[t] by {}
                lemma_merge_arena_facts(pre, cur, a@, t1, t2, node_i);
                // the fresh node's value is the maximum of its leaves
                lemma_seq_max_concat(leaves_of(pre, t1 as int), leaves_of(pre, t2 as int));
                // the partial level still partitions the processed prefix
                lemma_level_leaves_stable(pre, cur, prenew);
                lemma_level_leaves_stable(pre, cur, level0.subrange(0, j as int));
                lemma_level_leaves_stable(pre, cur, level0);
                lemma_level_leaves_push(cur, prenew, node_i);
                assert(level0.subrange(0, (j + 1) as int) =~= level0.subrange(0, j as int).push(
                    level0[j as int],
                ));
                assert(level0.subrange(0, (j + 2) as int) =~= level0.subrange(0, (j + 1) as int)
                    .push(level0[j + 1 as int]));
                lemma_level_leaves_push(cur, level0.subrange(0, j as int), t1);
                lemma_level_leaves_push(cur, level0.subrange(0, (j + 1) as int), t2);
                // children recorded in earlier rounds keep their links
                lemma_children_records_stable(pre, cur, a@.len(), round);
                // the pairs of this round merged so far, the fresh one included
                assert forall|k: int| 0 <= k < (j + 2) / 2 implies #[trigger] round_children_ok(
                    cur,
                    a@.len(),
                    round,
                    k,
                ) by {
                    if k < j / 2 {
                        assert(round_children_ok(pre, a@.len(), round, k));
                        let p = base_at(a@.len(), round) + k;
                        assert(same_shape(pre[p as int], cur[p as int]));
                    } else {
                        assert(k == j / 2);
                        assert(node_i as int == arena0.len() + j / 2);
                        assert(2 * k == j && 2 * k + 1 == j + 1);
                        assert(cur[node_i as int].left == Some(t1));
                        assert(cur[node_i as int].right == Some(t2));
                    }
                }
                // the book on parent links
                assert(cur[level0[j as int] as int].parent is Some);
                assert(cur[level0[j + 1] as int].parent is Some);
                assert forall|i: int|
                    0 <= i < pre.len() && i != level0[j as int] as int && i != level0[j + 1] as int
                    implies (#[trigger] cur[i]).parent == pre[i].parent by {}
                lemma_parent_step(
                    pre,
                    cur,
                    level0,
                    prenew,
                    new_nodes@,
                    j as int,
                    node_i,
                    arena0.len() as int,
                );
            }
            j += 2;
        }
        let ghost merges = new_nodes@;
        if j < m {
            // odd level: the unpaired trailing node advances unchanged
            let leftover: usize = nodes[j];
            let ghost prenew = new_nodes@;
            new_nodes.push(leftover);
            proof {
                lemma_level_leaves_push(tree.arena@, prenew, leftover);
                assert(level0.subrange(0, (j + 1) as int) =~= level0.subrange(0, j as int).push(
                    level0[j as int],
                ));
            }
        }
        proof {
            assert(level0.subrange(0, m as int) =~= level0);
            let base0 = arena0.len();
            // the level built here is exactly the next level of the construction
            assert(new_nodes@ =~= next_level_base(level0, base0));
            assert(level_at(a@.len(), round + 1) == next_level_base(
                level_at(a@.len(), round),
                base_at(a@.len(), round),
            ));
            assert(level_at(a@.len(), round + 1) == new_nodes@);
            assert(base_at(a@.len(), round + 1) == base0 + m / 2);
            assert(tree.arena@.len() == base0 + m / 2);
            // this round's merges are all recorded
            assert forall|k: int| 0 <= k < level_at(a@.len(), round).len() / 2 implies #[trigger] round_children_ok(
                tree.arena@,
                a@.len(),
                round,
                k,
            ) by {}
            // the new level's indices are pairwise distinct
            assert forall|p: int, q: int| 0 <= p < q < new_nodes@.len() implies new_nodes@[p]
                != new_nodes@[q] by {
                if q < merges.len() {
                    assert((merges[p] as int) == base0 + p);
                    assert((merges[q] as int) == base0 + q);
                } else {
                    assert((new_nodes@[q] as int) == level0[m - 1] as int);
                    assert((new_nodes@[p] as int) == base0 + p);
                    assert((level0[m - 1] as int) < base0);
                }
            }
            // the nodes whose parent is unset are exactly the new level
            assert forall|i: int| 0 <= i < tree.arena@.len() implies ((
            #[trigger] tree.arena@[i]).parent is None <==> in_level(new_nodes@, 0, i)) by {
                if m % 2 == 1 {
                    if tree.arena@[i].parent is None {
                        if in_level(level0, j as int, i) {
                            let p = choose|p: int|
                                j <= p < level0.len() && (level0[p] as int) == i;
                            assert(p == j);
                            assert((new_nodes@[merges.len() as int] as int) == i);
                            assert(in_level(new_nodes@, 0, i));
                        }
                        if in_level(merges, 0, i) {
                            let p = choose|p: int| 0 <= p < merges.len() && (merges[p] as int) == i;
                            assert(new_nodes@[p] == merges[p]);
                            assert(in_level(new_nodes@, 0, i));
                        }
                    }
                    if in_level(new_nodes@, 0, i) {
                        let p = choose|p: int|
                            0 <= p < new_nodes@.len() && (new_nodes@[p] as int) == i;
                        if p < merges.len() {
                            assert(merges[p] as int == i);
                            assert(in_level(merges, 0, i));
                        } else {
                            assert((level0[j as int] as int) == i);
                            assert(in_level(level0, j as int, i));
                        }
                    }
                } else {
                    if in_level(level0, j as int, i) {
                        let p = choose|p: int| j <= p < level0.len() && (level0[p] as int) == i;
                        assert(false);
                    }
                }
            }
            // a level of one node can only come from a full final merge
            if new_nodes@.len() == 1 {
                assert(m == 2);
                assert((new_nodes@[0] as int) == base0);
                assert(tree.arena@.len() == base0 + 1);
            }
            round = round + 1;
        }
        nodes = new_nodes;
    }

    let count: usize = tree.node_count();
    let root_i: usize = count - 1;
    tree.set_root(Some(root_i));
    proof {
        assert(nodes@.drop_last() =~= Seq::<usize>::empty());
        assert(level_leaves(tree.arena@, nodes@.drop_last()) == Seq::<i64>::empty());
        assert(seq![] + leaves_of(tree.arena@, nodes@[0] as int) =~= leaves_of(
            tree.arena@,
            nodes@[0] as int,
        ));
        assert(leaves_of(tree.arena@, root_i as int) == a@);
        // the construction's merge links, stated for every round
        assert forall|t: nat, k: int| 0 <= k < level_at(a@.len(), t).len() / 2 implies #[trigger] round_children_ok(
            tree.arena@,
            a@.len(),
            t,
            k,
        ) by {
            if t >= round {
                lemma_level_singleton_stays(a@.len(), round, t);
            }
        }
        // the root alone has no parent
        assert((nodes@[0] as int) == tree.arena@.len() - 1);
        assert(in_level(nodes@, 0, tree.arena@.len() - 1));
        assert(tree.arena@[tree.arena@.len() - 1].parent is None);
        assert forall|i: int| 0 <= i < tree.arena@.len() - 1 implies (
        #[trigger] tree.arena@[i]).parent is Some by {
            if tree.arena@[i].parent is None {
                let p = choose|p: int| 0 <= p < nodes@.len() && (nodes@[p] as int) == i;
                assert(p == 0);
                assert(false);
            }
        }
    }
    tree
}

} // verus!

use tournament_tree::tree::PreOrderVisitor;
use tournament_tree::tree::Tree;
use tournament_tree::tree::TreeNode;
use tournament_tree::tree_selection::build_tournament_tree;

#[test]
fn t_build_tree() {
    /*
                                            16
                        /                                       \
                     16                                           14
                 /         \                                /           \
            16                   13                    10                    14
         /     \               /     \               /    \                /     \
       7         16         8          13        10          9         12         14
     /  \       /  \       /  \       /  \      /   \      /  \       /  \       /  \
    7    6    15   16     8    4    13    3    5    10    9    1     12   2    11   14

    */
    let a: &[i64] = &[7, 6, 15, 16, 8, 4, 13, 3, 5, 10, 9, 1, 12, 2, 11, 14];
    let tree = build_tournament_tree(a);
    let r = PreOrderVisitor::recursive(&tree);
    assert_eq!(
        r,
        vec![
            16, 16, 16, 7, 7, 6, 16, 15, 16, 13, 8, 8, 4, 13, 13, 3, 14, 10, 10, 5, 10, 9, 9, 1,
            14, 12, 12, 2, 14, 11, 14
        ]
    );
}

#[test]
fn single_element_tree() {
    let a: &[i64] = &[42];
    let tree = build_tournament_tree(a);
    assert_eq!(tree.node_count(), 1);
    assert_eq!(tree.root, Some(0));
    let r = PreOrderVisitor::recursive(&tree);
    assert_eq!(r, vec![42]);
}

#[test]
fn empty_input_gives_empty_tree() {
    let a: &[i64] = &[];
    let tree = build_tournament_tree(a);
    assert_eq!(tree.node_count(), 0);
    assert_eq!(tree.root, None);
    let r = PreOrderVisitor::recursive(&tree);
    assert_eq!(r, Vec::<i64>::new());
}

#[test]
fn odd_length_carries_trailing_element() {
    // leaves 0..=4; round one merges (0,1)->5 and (2,3)->6 and carries 4;
    // round two merges (5,6)->7 and carries 4 again; round three merges
    // (7,4)->8, the root. The carried leaf keeps its parent unset until the
    // final round, where it is paired directly under the root.
    let a: &[i64] = &[1, 2, 3, 4, 5];
    let tree = build_tournament_tree(a);
    assert_eq!(tree.node_count(), 9);
    assert_eq!(tree.root, Some(8));
    let carried = tree.node_at(4).unwrap();
    assert_eq!(carried.value, 5);
    assert_eq!(carried.parent, Some(8));
    let root = tree.node_at(8).unwrap();
    assert_eq!(root.left, Some(7));
    assert_eq!(root.right, Some(4));
    assert_eq!(root.value, 5);
    let r = PreOrderVisitor::recursive(&tree);
    assert_eq!(r, vec![5, 4, 2, 1, 2, 4, 3, 4, 5]);
}

#[test]
fn traversal_is_restartable() {
    let a: &[i64] = &[9, 3, 7, 7, 1, 8];
    let tree = build_tournament_tree(a);
    let first = PreOrderVisitor::recursive(&tree);
    let second = PreOrderVisitor::recursive(&tree);
    assert_eq!(first, second);
}

#[test]
fn root_holds_maximum() {
    let inputs: [&[i64]; 4] = [
        &[5],
        &[2, 11],
        &[3, 3, 3],
        &[-7, -2, -9, -4, -1, -30],
    ];
    let expected: [i64; 4] = [5, 11, 3, -1];
    for (a, want) in inputs.iter().zip(expected.iter()) {
        let tree = build_tournament_tree(a);
        let root: usize = tree.root.unwrap();
        assert_eq!(tree.node_at(root).unwrap().value, *want);
    }
}

#[test]
fn internal_nodes_hold_child_maximum() {
    let a: &[i64] = &[4, 9, 2, 2, 6, 5, 8];
    let tree = build_tournament_tree(a);
    let count: usize = tree.node_count();
    for i in 0..count {
        let node = tree.node_at(i).unwrap();
        match (node.left, node.right) {
            (Some(l), Some(r)) => {
                let lv = tree.node_at(l).unwrap().value;
                let rv = tree.node_at(r).unwrap().value;
                assert_eq!(node.value, lv.max(rv));
            }
            (None, None) => {}
            _ => panic!("a node with exactly one child"),
        }
    }
}

#[test]
fn leaves_keep_input_order() {
    let a: &[i64] = &[10, -3, 5, 5, 0, 99, 1];
    let tree = build_tournament_tree(a);
    for (i, v) in a.iter().enumerate() {
        let node = tree.node_at(i).unwrap();
        assert_eq!(node.value, *v);
        assert_eq!(node.left, None);
        assert_eq!(node.right, None);
    }
}

#[test]
fn node_counts_match_input_length() {
    for n in 1..20usize {
        let a: Vec<i64> = (0..n as i64).collect();
        let tree = build_tournament_tree(&a);
        assert_eq!(tree.node_count(), 2 * n - 1);
        let mut leaves: usize = 0;
        let mut internal: usize = 0;
        for i in 0..tree.node_count() {
            let node = tree.node_at(i).unwrap();
            if node.left.is_none() && node.right.is_none() {
                leaves += 1;
            } else {
                internal += 1;
            }
        }
        assert_eq!(leaves, n);
        assert_eq!(internal, n - 1);
        assert!(n < 2 || internal < n);
    }
}

#[test]
fn only_the_root_lacks_a_parent() {
    let a: &[i64] = &[6, 1, 4, 2, 9, 9, 0, 3, 5];
    let tree = build_tournament_tree(a);
    let count: usize = tree.node_count();
    for i in 0..count {
        let node = tree.node_at(i).unwrap();
        if i == count - 1 {
            assert_eq!(node.parent, None);
        } else {
            assert!(node.parent.is_some());
        }
    }
    assert_eq!(tree.root, Some(count - 1));
}

#[test]
fn arena_api_round_trip() {
    let mut tree = Tree::new();
    assert_eq!(tree.node_count(), 0);
    assert_eq!(tree.node_at(0), None);
    let leaf = TreeNode::from_value(7);
    let i: usize = tree.add_node(leaf);
    assert_eq!(i, 0);
    let other = TreeNode::new(9, Some(0), None, None);
    let j: usize = tree.add_node(other);
    assert_eq!(j, 1);
    assert_eq!(tree.node_count(), 2);
    let got = tree.node_at(0).unwrap();
    assert_eq!(got.value, 7);
    assert_eq!(got.parent, None);
    tree.set_parent(0, 1);
    assert_eq!(tree.node_at(0).unwrap().parent, Some(1));
    assert_eq!(tree.node_at(2), None);
    assert_eq!(tree.root, None);
    tree.set_root(Some(1));
    assert_eq!(tree.root, Some(1));
}

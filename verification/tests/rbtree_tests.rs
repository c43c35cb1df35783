use red_black_tree::model::{Color, Tree};
use red_black_tree::rbtree::RedBlackTree;

fn is_red(t: &Tree) -> bool {
    matches!(t, Tree::Node { color: Color::Red, .. })
}

fn root_is_black_or_absent(tree: &RedBlackTree) -> bool {
    !is_red(tree.root())
}

fn no_adjacent_red(t: &Tree) -> bool {
    match t {
        Tree::Leaf => true,
        Tree::Node { color, left, right, .. } => {
            let here = *color == Color::Black || (!is_red(left) && !is_red(right));
            here && no_adjacent_red(left) && no_adjacent_red(right)
        }
    }
}

/// The black-height of `t`, or `None` if two paths disagree on it.
fn black_height(t: &Tree) -> Option<u32> {
    match t {
        Tree::Leaf => Some(0),
        Tree::Node { color, left, right, .. } => {
            let l = black_height(left)?;
            let r = black_height(right)?;
            if l != r {
                return None;
            }
            Some(l + if *color == Color::Black { 1 } else { 0 })
        }
    }
}

fn height(t: &Tree) -> u32 {
    match t {
        Tree::Leaf => 0,
        Tree::Node { left, right, .. } => 1 + height(left).max(height(right)),
    }
}

fn invariants_hold(tree: &RedBlackTree) -> bool {
    let values = tree.inorder();
    let sorted = values.windows(2).all(|w| w[0] <= w[1]);
    root_is_black_or_absent(tree)
        && no_adjacent_red(tree.root())
        && black_height(tree.root()).is_some()
        && sorted
}

#[test]
fn new_tree_is_empty() {
    let tree = RedBlackTree::new();
    assert_eq!(tree.inorder(), Vec::<u64>::new());
    assert_eq!(tree.last_insert_rotations(), 0);
    assert!(matches!(tree.root(), Tree::Leaf));
}

#[test]
fn scenario_a_mixed_inserts() {
    let mut tree = RedBlackTree::new();
    for v in [20u64, 15, 25, 10, 5, 1, 30, 18] {
        tree.insert(v);
    }
    assert_eq!(tree.inorder(), vec![1, 5, 10, 15, 18, 20, 25, 30]);
    match tree.root() {
        Tree::Node { color, value, .. } => {
            assert_eq!(*color, Color::Black);
            assert!(*value == 20 || *value == 15);
        }
        Tree::Leaf => panic!("tree has a root after insertions"),
    }
    assert!(no_adjacent_red(tree.root()));
    assert!(invariants_hold(&tree));
}

#[test]
fn scenario_b_increasing_sequence() {
    let mut tree = RedBlackTree::new();
    for v in 1u64..=7 {
        tree.insert(v);
    }
    assert_eq!(tree.inorder(), vec![1, 2, 3, 4, 5, 6, 7]);
    assert!(invariants_hold(&tree));
    // red-black height bound: at most 2 * log2(n + 1) = 2 * log2(8) = 6
    assert!(height(tree.root()) <= 6);
    // and the sharper bound through the black-height itself
    let bh = black_height(tree.root()).unwrap();
    assert!(height(tree.root()) <= 2 * bh);
}

#[test]
fn scenario_c_single_insert() {
    let mut tree = RedBlackTree::new();
    tree.insert(42);
    assert_eq!(tree.inorder(), vec![42]);
    match tree.root() {
        Tree::Node { color, value, left, right } => {
            assert_eq!(*color, Color::Black);
            assert_eq!(*value, 42);
            assert!(matches!(**left, Tree::Leaf));
            assert!(matches!(**right, Tree::Leaf));
        }
        Tree::Leaf => panic!("tree has a root after an insertion"),
    }
}

#[test]
fn scenario_d_duplicates() {
    let mut tree = RedBlackTree::new();
    tree.insert(5);
    tree.insert(5);
    tree.insert(5);
    assert_eq!(tree.inorder(), vec![5, 5, 5]);
    assert!(invariants_hold(&tree));
}

#[test]
fn inorder_sorted_and_complete() {
    // order (P-style): whatever the insertion order, the traversal is
    // non-decreasing and loses or invents nothing
    let values = [13u64, 8, 17, 1, 11, 15, 25, 6, 22, 27, 8, 13, 0, 99, 17];
    let mut tree = RedBlackTree::new();
    for (i, v) in values.iter().enumerate() {
        tree.insert(*v);
        let out = tree.inorder();
        assert_eq!(out.len(), i + 1);
        assert!(out.windows(2).all(|w| w[0] <= w[1]));
    }
    let mut expected = values.to_vec();
    expected.sort();
    assert_eq!(tree.inorder(), expected);
}

#[test]
fn invariants_after_every_insert() {
    let values = [9u64, 3, 14, 3, 20, 1, 7, 12, 16, 25, 5, 9, 30, 2];
    let mut tree = RedBlackTree::new();
    for v in values {
        tree.insert(v);
        assert!(invariants_hold(&tree));
        assert!(tree.last_insert_rotations() <= 2);
    }
}

#[test]
fn rotation_counts() {
    // first insertions never rotate
    let mut tree = RedBlackTree::new();
    tree.insert(1);
    assert_eq!(tree.last_insert_rotations(), 0);
    tree.insert(2);
    assert_eq!(tree.last_insert_rotations(), 0);
    // a straight line of three asks for a single rotation
    tree.insert(3);
    assert_eq!(tree.last_insert_rotations(), 1);

    // a triangle shape asks for two
    let mut tree = RedBlackTree::new();
    tree.insert(1);
    tree.insert(3);
    tree.insert(2);
    assert_eq!(tree.last_insert_rotations(), 2);
    assert_eq!(tree.inorder(), vec![1, 2, 3]);
}

#[test]
fn recolor_case_rotates_nothing() {
    // inserting 4 under the balanced tree of 1..=3 recolors only
    let mut tree = RedBlackTree::new();
    tree.insert(2);
    tree.insert(1);
    tree.insert(3);
    assert_eq!(tree.last_insert_rotations(), 0);
    tree.insert(4);
    assert_eq!(tree.last_insert_rotations(), 0);
    assert_eq!(tree.inorder(), vec![1, 2, 3, 4]);
    assert!(invariants_hold(&tree));
}

#[test]
fn root_black_after_each_insert() {
    let mut tree = RedBlackTree::new();
    for v in [10u64, 18, 7, 15, 16, 30, 25, 40, 60, 2, 1, 70] {
        tree.insert(v);
        assert!(root_is_black_or_absent(&tree));
    }
}

#[test]
fn black_height_uniform_throughout() {
    let mut tree = RedBlackTree::new();
    for v in [50u64, 25, 75, 12, 37, 62, 87, 6, 18, 31, 43] {
        tree.insert(v);
        assert!(black_height(tree.root()).is_some());
    }
}

#[test]
fn duplicates_mixed_with_distinct_values() {
    let mut tree = RedBlackTree::new();
    for v in [10u64, 5, 5, 10, 15, 5, 10] {
        tree.insert(v);
    }
    assert_eq!(tree.inorder(), vec![5, 5, 5, 10, 10, 10, 15]);
    assert!(invariants_hold(&tree));
}

#[test]
fn large_increasing_run_stays_balanced() {
    let mut tree = RedBlackTree::new();
    for v in 1u64..=127 {
        tree.insert(v);
        assert!(tree.last_insert_rotations() <= 2);
    }
    let out = tree.inorder();
    assert_eq!(out, (1u64..=127).collect::<Vec<u64>>());
    assert!(invariants_hold(&tree));
    // 127 nodes: height is at most 2 * log2(128) = 14
    assert!(height(tree.root()) <= 14);
}

//! The red-black tree itself: insertion with the recolor/rotate fixup, and
//! in-order traversal.
//!
//! Insertion descends as in any binary search tree, places the new value as
//! a red node, and repairs the red-black invariants on the way back up. The
//! repair carries a [`Fix`] status: either the subtree is already in order,
//! or its root turned red (which the level above may still have to answer
//! for), or a red node sits directly under a red parent. The last case is
//! resolved at the grandparent by recoloring (when the uncle is red) or by
//! at most two rotations (when it is black), exactly one of which ends the
//! repair — so no insertion ever rotates more than twice.

use crate::model::{
    at_or_above, at_or_below, bh, bh_ok, bst, is_red, lemma_bst_sorted, lemma_empty_multiset,
    lemma_insert_elems, lemma_node_multiset, lemma_parts_of_node, lemma_sorted_insert_props,
    lemma_sorted_multiset_unique, red_ok, seq_of, sorted, sorted_insert, Color, Tree,
};
use vstd::prelude::*;

verus! {

broadcast use crate::model::lemma_concat_contains, crate::model::lemma_singleton_contains;

/// What the insertion walk still owes the levels above it.
enum Fix {
    /// The subtree satisfies every invariant and its black-height is
    /// unchanged; nothing is left to repair.
    Done,
    /// The subtree is valid but its root is now red; the parent must check
    /// that it is not red itself.
    RedRoot,
    /// The subtree's root is red and so is its left child; the grandparent
    /// must recolor or rotate.
    RedLeft,
    /// As `RedLeft`, with the red pair on the right.
    RedRight,
}

/// A red node whose left child is red too, everything below them in order.
spec fn red_left_violation(t: Tree) -> bool {
    match t {
        Tree::Node { color: Color::Red, left, right, .. } => is_red(*left) && red_ok(*left)
            && red_ok(*right) && !is_red(*right),
        _ => false,
    }
}

/// A red node whose right child is red too, everything below them in order.
spec fn red_right_violation(t: Tree) -> bool {
    match t {
        Tree::Node { color: Color::Red, left, right, .. } => is_red(*right) && red_ok(*right)
            && red_ok(*left) && !is_red(*left),
        _ => false,
    }
}

/// `t` with its root node, if any, painted black.
spec fn paint_black(t: Tree) -> Tree {
    match t {
        Tree::Leaf => Tree::Leaf,
        Tree::Node { value, left, right, .. } => Tree::Node {
            color: Color::Black,
            value,
            left,
            right,
        },
    }
}

/// Paints the root of `t` black.
fn blacken(t: Tree) -> (r: Tree)
    ensures
        r == paint_black(t),
{
    match t {
        Tree::Leaf => Tree::Leaf,
        Tree::Node { value, left, right, .. } => Tree::Node {
            color: Color::Black,
            value,
            left,
            right,
        },
    }
}

/// Whether the root of `t` is a red node.
fn node_is_red(t: &Tree) -> (r: bool)
    ensures
        r == is_red(*t),
{
    match t {
        Tree::Node { color: Color::Red, .. } => true,
        _ => false,
    }
}

/// The left rotation is possible: there is a node with a right child.
spec fn can_left_rotate(t: Tree) -> bool {
    t matches Tree::Node { right, .. } && *right is Node
}

/// The right rotation is possible: there is a node with a left child.
spec fn can_right_rotate(t: Tree) -> bool {
    t matches Tree::Node { left, .. } && *left is Node
}

/// What a left rotation produces: the right child becomes the root, the old
/// root takes the right child's left subtree in exchange. Every node keeps
/// its own color.
spec fn spec_left_rotate(t: Tree) -> Tree {
    match t {
        Tree::Node { color, value, left, right } => match *right {
            Tree::Node { color: rc, value: rv, left: rl, right: rr } => Tree::Node {
                color: rc,
                value: rv,
                left: Box::new(
                    Tree::Node { color, value, left, right: rl },
                ),
                right: rr,
            },
            Tree::Leaf => t,
        },
        Tree::Leaf => t,
    }
}

/// The mirror image of `spec_left_rotate`.
spec fn spec_right_rotate(t: Tree) -> Tree {
    match t {
        Tree::Node { color, value, left, right } => match *left {
            Tree::Node { color: lc, value: lv, left: ll, right: lr } => Tree::Node {
                color: lc,
                value: lv,
                left: ll,
                right: Box::new(
                    Tree::Node { color, value, left: lr, right },
                ),
            },
            Tree::Leaf => t,
        },
        Tree::Leaf => t,
    }
}

/// Rotates left around the root of `t`. Structural surgery only: the
/// in-order sequence is unchanged and no node changes color.
fn left_rotate(t: Tree) -> (r: Tree)
    requires
        can_left_rotate(t),
    ensures
        r == spec_left_rotate(t),
        seq_of(r) == seq_of(t),
{
    let ghost t0 = t;
    match t {
        Tree::Node { color, value, left, right } => {
            let ghost l0 = *left;
            let ghost r0 = *right;
            let rsub = *right;
            match rsub {
                Tree::Node { color: rc, value: rv, left: rl, right: rr } => {
                    let ghost rl0 = *rl;
                    let ghost rr0 = *rr;
                    proof {
                        assert(rsub == r0);
                        assert(seq_of(t0) == seq_of(l0) + seq![value] + seq_of(r0));
                        assert(seq_of(r0) == seq_of(rl0) + seq![rv] + seq_of(rr0));
                    }
                    let pivot = Tree::Node { color, value, left, right: rl };
                    let ghost p0 = pivot;
                    let r = Tree::Node { color: rc, value: rv, left: Box::new(pivot), right: rr };
                    proof {
                        assert(seq_of(p0) == seq_of(l0) + seq![value] + seq_of(rl0));
                        assert(seq_of(r) == seq_of(p0) + seq![rv] + seq_of(rr0));
                        assert(seq_of(r) =~= seq_of(t0));
                    }
                    r
                },
                Tree::Leaf => Tree::Node { color, value, left, right: Box::new(Tree::Leaf) },
            }
        },
        Tree::Leaf => Tree::Leaf,
    }
}

/// Rotates right around the root of `t`; the mirror image of `left_rotate`.
fn right_rotate(t: Tree) -> (r: Tree)
    requires
        can_right_rotate(t),
    ensures
        r == spec_right_rotate(t),
        seq_of(r) == seq_of(t),
{
    let ghost t0 = t;
    match t {
        Tree::Node { color, value, left, right } => {
            let ghost l0 = *left;
            let ghost r0 = *right;
            let lsub = *left;
            match lsub {
                Tree::Node { color: lc, value: lv, left: ll, right: lr } => {
                    let ghost ll0 = *ll;
                    let ghost lr0 = *lr;
                    proof {
                        assert(lsub == l0);
                        assert(seq_of(t0) == seq_of(l0) + seq![value] + seq_of(r0));
                        assert(seq_of(l0) == seq_of(ll0) + seq![lv] + seq_of(lr0));
                    }
                    let pivot = Tree::Node { color, value, left: lr, right };
                    let ghost p0 = pivot;
                    let r = Tree::Node { color: lc, value: lv, left: ll, right: Box::new(pivot) };
                    proof {
                        assert(seq_of(p0) == seq_of(lr0) + seq![value] + seq_of(r0));
                        assert(seq_of(r) == seq_of(ll0) + seq![lv] + seq_of(p0));
                        assert(seq_of(r) =~= seq_of(t0));
                    }
                    r
                },
                Tree::Leaf => Tree::Node { color, value, left: Box::new(Tree::Leaf), right },
            }
        },
        Tree::Leaf => Tree::Leaf,
    }
}

/// Repairs the tree at a grandparent whose left child `p` holds a red pair
/// (`p` is red and so is one of its children), `gv` being the
/// grandparent's value and `u` its right subtree (the uncle). A red uncle
/// means recoloring; a black uncle means one rotation for a line, two for
/// a triangle, after which everything below the grandparent's position is
/// in order. The in-order sequence is exactly what it was.
fn fix_left(gv: u64, p: Tree, u: Tree) -> (res: (Tree, Fix, u64))
    requires
        red_left_violation(p) || red_right_violation(p),
        bst(p),
        bst(u),
        red_ok(u),
        bh_ok(p),
        bh_ok(u),
        bh(p) == bh(u),
        at_or_below(seq_of(p), gv),
        at_or_above(seq_of(u), gv),
    ensures
        seq_of(res.0) == seq_of(p) + seq![gv] + seq_of(u),
        bst(res.0),
        bh_ok(res.0),
        bh(res.0) == bh(p) + 1,
        res.1 is Done || res.1 is RedRoot,
        res.1 is Done ==> red_ok(res.0) && !is_red(res.0),
        res.1 is RedRoot ==> is_red(res.0) && red_ok(res.0),
        res.2 <= 2,
        res.1 is RedRoot ==> res.2 == 0,
{
    let ghost p0 = p;
    let ghost u0 = u;
    if node_is_red(&u) {
        // red uncle: paint the red pair's top and the uncle black, hand the
        // grandparent's position on as a red root
        let p2 = blacken(p);
        let u2 = blacken(u);
        let r = Tree::Node { color: Color::Red, value: gv, left: Box::new(p2), right: Box::new(u2) };
        proof {
            assert(seq_of(paint_black(p0)) == seq_of(p0));
            assert(seq_of(paint_black(u0)) == seq_of(u0));
            assert(bst(paint_black(p0)));
            assert(bst(paint_black(u0)));
            assert(red_ok(paint_black(p0)));
            assert(red_ok(paint_black(u0)));
            assert(bh_ok(paint_black(p0)));
            assert(bh_ok(paint_black(u0)));
            assert(bh(paint_black(p0)) == bh(p0) + 1);
            assert(bh(paint_black(u0)) == bh(u0) + 1);
            assert(seq_of(r) == seq_of(p0) + seq![gv] + seq_of(u0));
        }
        (r, Fix::RedRoot, 0)
    } else {
        // black uncle: straighten a triangle into a line, then paint the
        // pair's top black and the grandparent red, and rotate it right
        let line = match &p {
            Tree::Node { left, .. } => node_is_red(&**left),
            Tree::Leaf => false,
        };
        let p3 = if line {
            p
        } else {
            let r = left_rotate(p);
            proof {
                assert(red_right_violation(p0));
                let pv = p0->value;
                let pl = *p0->left;
                let q = *p0->right;
                let qv = q->value;
                let ql = *q->left;
                let qr = *q->right;
                lemma_parts_of_node(seq_of(ql), qv, seq_of(qr));
                lemma_parts_of_node(seq_of(pl), pv, seq_of(q));
                lemma_parts_of_node(seq_of(pl), pv, seq_of(ql));
                assert(bst(q));
                assert(at_or_below(seq_of(ql), qv));
                assert(at_or_above(seq_of(q), pv));
                assert(seq_of(q) == seq_of(ql) + seq![qv] + seq_of(qr));
                assert(seq_of(q).contains(qv));
                assert(qv >= pv);
                assert forall|x: u64| seq_of(ql).contains(x) implies x >= pv by {
                    assert(seq_of(q).contains(x));
                }
                let inner = Tree::Node { color: Color::Red, value: pv, left: p0->left, right: q->left };
                assert(r == Tree::Node { color: q->color, value: qv, left: Box::new(inner), right: q->right });
                assert(seq_of(inner) == seq_of(pl) + seq![pv] + seq_of(ql));
                assert forall|x: u64| seq_of(inner).contains(x) implies x <= qv by {
                    if seq_of(pl).contains(x) {
                        assert(x <= pv);
                    } else if seq_of(ql).contains(x) {
                        assert(x <= qv);
                    }
                }
                assert(at_or_above(seq_of(ql), pv));
                assert(bst(inner));
                assert(at_or_below(seq_of(inner), qv));
                assert(bst(r));
                assert(red_left_violation(r));
                assert(bh_ok(q));
                assert(bh(q) == bh(ql));
                assert(bh(pl) == bh(q));
                assert(bh_ok(inner));
                assert(bh(inner) == bh(pl));
                assert(bh_ok(r));
                assert(bh(r) == bh(p0));
            }
            r
        };
        let ghost p3g = p3;
        proof {
            assert(red_left_violation(p3g));
            assert(bst(p3g) && bh_ok(p3g));
            assert(seq_of(p3g) == seq_of(p0));
            assert(bh(p3g) == bh(p0));
        }
        let pb = blacken(p3);
        let g = Tree::Node { color: Color::Red, value: gv, left: Box::new(pb), right: Box::new(u) };
        let r = right_rotate(g);
        proof {
            assert(seq_of(p3g) == seq_of(p0));
            assert(seq_of(paint_black(p3g)) == seq_of(p3g));
            assert(seq_of(r) == seq_of(p0) + seq![gv] + seq_of(u0));
            let p3v = p3g->value;
            let l3 = *p3g->left;
            let r3 = *p3g->right;
            let inner = Tree::Node { color: Color::Red, value: gv, left: p3g->right, right: Box::new(u0) };
            assert(r == Tree::Node {
                color: Color::Black,
                value: p3v,
                left: p3g->left,
                right: Box::new(inner),
            });
            assert(red_ok(l3) && is_red(l3) && red_ok(r3) && !is_red(r3));
            assert(!is_red(u0));
            assert(red_ok(inner));
            assert(red_ok(r));
            assert(!is_red(r));
            lemma_parts_of_node(seq_of(l3), p3v, seq_of(r3));
            lemma_parts_of_node(seq_of(r3), gv, seq_of(u0));
            assert(seq_of(p3g) == seq_of(l3) + seq![p3v] + seq_of(r3));
            assert(seq_of(inner) == seq_of(r3) + seq![gv] + seq_of(u0));
            assert(seq_of(p3g).contains(p3v));
            assert(p3v <= gv);
            assert forall|x: u64| seq_of(r3).contains(x) implies x <= gv by {
                assert(seq_of(p3g).contains(x));
            }
            assert forall|x: u64| seq_of(inner).contains(x) implies x >= p3v by {
                if seq_of(r3).contains(x) {
                    assert(x >= p3v);
                } else if seq_of(u0).contains(x) {
                    assert(x >= gv);
                }
            }
            assert(bst(p3g));
            assert(bst(inner));
            assert(at_or_below(seq_of(l3), p3v));
            assert(at_or_above(seq_of(inner), p3v));
            assert(bst(r));
            assert(bh(l3) == bh(r3));
            assert(bh(p3g) == bh(l3));
            assert(bh(r3) == bh(u0));
            assert(bh_ok(inner));
            assert(bh(inner) == bh(r3));
            assert(bh_ok(r));
            assert(bh(r) == bh(p0) + 1);
        }
        (r, Fix::Done, if line { 1 } else { 2 })
    }
}

/// The mirror image of `fix_left`: repairs the tree at a grandparent whose
/// right child `p` holds a red pair, `u` being its left subtree (the
/// uncle).
fn fix_right(gv: u64, p: Tree, u: Tree) -> (res: (Tree, Fix, u64))
    requires
        red_left_violation(p) || red_right_violation(p),
        bst(p),
        bst(u),
        red_ok(u),
        bh_ok(p),
        bh_ok(u),
        bh(p) == bh(u),
        at_or_above(seq_of(p), gv),
        at_or_below(seq_of(u), gv),
    ensures
        seq_of(res.0) == seq_of(u) + seq![gv] + seq_of(p),
        bst(res.0),
        bh_ok(res.0),
        bh(res.0) == bh(p) + 1,
        res.1 is Done || res.1 is RedRoot,
        res.1 is Done ==> red_ok(res.0) && !is_red(res.0),
        res.1 is RedRoot ==> is_red(res.0) && red_ok(res.0),
        res.2 <= 2,
        res.1 is RedRoot ==> res.2 == 0,
{
    let ghost p0 = p;
    let ghost u0 = u;
    if node_is_red(&u) {
        // red uncle: paint the red pair's top and the uncle black, hand the
        // grandparent's position on as a red root
        let p2 = blacken(p);
        let u2 = blacken(u);
        let r = Tree::Node { color: Color::Red, value: gv, left: Box::new(u2), right: Box::new(p2) };
        proof {
            assert(seq_of(paint_black(p0)) == seq_of(p0));
            assert(seq_of(paint_black(u0)) == seq_of(u0));
            assert(bst(paint_black(p0)));
            assert(bst(paint_black(u0)));
            assert(red_ok(paint_black(p0)));
            assert(red_ok(paint_black(u0)));
            assert(bh_ok(paint_black(p0)));
            assert(bh_ok(paint_black(u0)));
            assert(bh(paint_black(p0)) == bh(p0) + 1);
            assert(bh(paint_black(u0)) == bh(u0) + 1);
            assert(seq_of(r) == seq_of(u0) + seq![gv] + seq_of(p0));
        }
        (r, Fix::RedRoot, 0)
    } else {
        // black uncle: straighten a triangle into a line, then paint the
        // pair's top black and the grandparent red, and rotate it left
        let line = match &p {
            Tree::Node { right, .. } => node_is_red(&**right),
            Tree::Leaf => false,
        };
        let p3 = if line {
            p
        } else {
            let r = right_rotate(p);
            proof {
                assert(red_left_violation(p0));
                let pv = p0->value;
                let pr = *p0->right;
                let q = *p0->left;
                let qv = q->value;
                let ql = *q->left;
                let qr = *q->right;
                lemma_parts_of_node(seq_of(ql), qv, seq_of(qr));
                lemma_parts_of_node(seq_of(q), pv, seq_of(pr));
                lemma_parts_of_node(seq_of(qr), pv, seq_of(pr));
                assert(bst(q));
                assert(at_or_above(seq_of(qr), qv));
                assert(at_or_below(seq_of(q), pv));
                assert(seq_of(q) == seq_of(ql) + seq![qv] + seq_of(qr));
                assert(seq_of(q).contains(qv));
                assert(qv <= pv);
                assert forall|x: u64| seq_of(qr).contains(x) implies x <= pv by {
                    assert(seq_of(q).contains(x));
                }
                let inner = Tree::Node { color: Color::Red, value: pv, left: q->right, right: p0->right };
                assert(r == Tree::Node { color: q->color, value: qv, left: q->left, right: Box::new(inner) });
                assert(seq_of(inner) == seq_of(qr) + seq![pv] + seq_of(pr));
                assert forall|x: u64| seq_of(inner).contains(x) implies x >= qv by {
                    if seq_of(qr).contains(x) {
                        assert(x >= qv);
                    } else if seq_of(pr).contains(x) {
                        assert(x >= pv);
                    }
                }
                assert(at_or_below(seq_of(qr), pv));
                assert(bst(inner));
                assert(at_or_above(seq_of(inner), qv));
                assert(bst(r));
                assert(red_right_violation(r));
                assert(bh_ok(q));
                assert(bh(q) == bh(ql));
                assert(bh(q) == bh(pr));
                assert(bh_ok(inner));
                assert(bh(inner) == bh(qr));
                assert(bh_ok(r));
                assert(bh(r) == bh(p0));
            }
            r
        };
        let ghost p3g = p3;
        proof {
            assert(red_right_violation(p3g));
            assert(bst(p3g) && bh_ok(p3g));
            assert(seq_of(p3g) == seq_of(p0));
            assert(bh(p3g) == bh(p0));
        }
        let pb = blacken(p3);
        let g = Tree::Node { color: Color::Red, value: gv, left: Box::new(u), right: Box::new(pb) };
        let r = left_rotate(g);
        proof {
            assert(seq_of(paint_black(p3g)) == seq_of(p3g));
            assert(seq_of(r) == seq_of(u0) + seq![gv] + seq_of(p0));
            let p3v = p3g->value;
            let l3 = *p3g->left;
            let r3 = *p3g->right;
            let inner = Tree::Node { color: Color::Red, value: gv, left: Box::new(u0), right: p3g->left };
            assert(r == Tree::Node {
                color: Color::Black,
                value: p3v,
                left: Box::new(inner),
                right: p3g->right,
            });
            assert(red_ok(r3) && is_red(r3) && red_ok(l3) && !is_red(l3));
            assert(!is_red(u0));
            assert(red_ok(inner));
            assert(red_ok(r));
            assert(!is_red(r));
            lemma_parts_of_node(seq_of(l3), p3v, seq_of(r3));
            lemma_parts_of_node(seq_of(u0), gv, seq_of(l3));
            assert(seq_of(p3g) == seq_of(l3) + seq![p3v] + seq_of(r3));
            assert(seq_of(inner) == seq_of(u0) + seq![gv] + seq_of(l3));
            assert(seq_of(p3g).contains(p3v));
            assert(p3v >= gv);
            assert forall|x: u64| seq_of(l3).contains(x) implies x >= gv by {
                assert(seq_of(p3g).contains(x));
            }
            assert forall|x: u64| seq_of(inner).contains(x) implies x <= p3v by {
                if seq_of(l3).contains(x) {
                    assert(x <= p3v);
                } else if seq_of(u0).contains(x) {
                    assert(x <= gv);
                }
            }
            assert(bst(p3g));
            assert(bst(inner));
            assert(at_or_above(seq_of(r3), p3v));
            assert(at_or_below(seq_of(inner), p3v));
            assert(bst(r));
            assert(bh(l3) == bh(r3));
            assert(bh(p3g) == bh(l3));
            assert(bh(l3) == bh(u0));
            assert(bh_ok(inner));
            assert(bh(inner) == bh(u0));
            assert(bh_ok(r));
            assert(bh(r) == bh(p0) + 1);
        }
        (r, Fix::Done, if line { 1 } else { 2 })
    }
}

/// Inserts `v` into `t`: the standard binary-search-tree descent places a
/// fresh red node (a strictly smaller value goes left, any other right),
/// and the way back up repairs the one red pair this can create. Returns
/// the new subtree, the repair status its parent must answer for, and the
/// number of rotations performed — never more than two, and none at all
/// unless the repair is finished.
fn ins(t: Tree, v: u64) -> (res: (Tree, Fix, u64))
    requires
        bst(t),
        red_ok(t),
        bh_ok(t),
    ensures
        bst(res.0),
        bh_ok(res.0),
        bh(res.0) == bh(t),
        res.0 is Node,
        seq_of(res.0).to_multiset() == seq_of(t).to_multiset().insert(v),
        res.2 <= 2,
        !(res.1 is Done) ==> res.2 == 0,
        res.1 is Done ==> red_ok(res.0) && (is_red(res.0) ==> is_red(t)),
        res.1 is RedRoot ==> is_red(res.0) && red_ok(res.0),
        res.1 is RedLeft ==> red_left_violation(res.0) && is_red(t),
        res.1 is RedRight ==> red_right_violation(res.0) && is_red(t),
    decreases t,
{
    let ghost t0 = t;
    match t {
        Tree::Leaf => {
            let n = Tree::Node {
                color: Color::Red,
                value: v,
                left: Box::new(Tree::Leaf),
                right: Box::new(Tree::Leaf),
            };
            proof {
                broadcast use vstd::multiset::group_multiset_axioms;

                lemma_empty_multiset();
                lemma_node_multiset(Seq::empty(), v, Seq::empty());
                assert(seq_of(Tree::Leaf) == Seq::<u64>::empty());
                assert(seq_of(n) == Seq::<u64>::empty() + seq![v] + Seq::<u64>::empty());
                assert(seq_of(n).to_multiset() =~= seq_of(t0).to_multiset().insert(v));
            }
            (n, Fix::RedRoot, 0)
        },
        Tree::Node { color, value, left, right } => {
            let ghost l0 = *left;
            let ghost r0 = *right;
            if v < value {
                let lsub = *left;
                let (l2, st, rc) = ins(lsub, v);
                let ghost l2g = l2;
                let ghost target = seq_of(l2g) + seq![value] + seq_of(r0);
                proof {
                    broadcast use vstd::multiset::group_multiset_axioms;

                    assert(seq_of(t0) == seq_of(l0) + seq![value] + seq_of(r0));
                    lemma_insert_elems(seq_of(l0), seq_of(l2g), v);
                    lemma_node_multiset(seq_of(l0), value, seq_of(r0));
                    lemma_node_multiset(seq_of(l2g), value, seq_of(r0));
                    assert(target.to_multiset() =~= seq_of(t0).to_multiset().insert(v));
                    assert(at_or_below(seq_of(l0), value));
                    assert forall|x: u64| seq_of(l2g).contains(x) implies x <= value by {
                        if !seq_of(l0).contains(x) {
                            assert(x == v);
                        }
                    }
                    assert(at_or_below(seq_of(l2g), value));
                    assert(at_or_above(seq_of(r0), value));
                    assert(bst(r0) && red_ok(r0) && bh_ok(r0));
                    assert(bh(l0) == bh(r0));
                }
                match st {
                    Fix::Done => {
                        let r = Tree::Node { color, value, left: Box::new(l2), right };
                        proof {
                            assert(seq_of(r) == target);
                            assert(bst(r));
                            assert(red_ok(r));
                            assert(bh_ok(r));
                            assert(bh(r) == bh(t0));
                        }
                        (r, Fix::Done, rc)
                    },
                    Fix::RedRoot => {
                        if color == Color::Black {
                            let r = Tree::Node {
                                color: Color::Black,
                                value,
                                left: Box::new(l2),
                                right,
                            };
                            proof {
                                assert(seq_of(r) == target);
                                assert(bst(r));
                                assert(red_ok(r));
                                assert(bh_ok(r));
                                assert(bh(r) == bh(t0));
                            }
                            (r, Fix::Done, rc)
                        } else {
                            let r = Tree::Node {
                                color: Color::Red,
                                value,
                                left: Box::new(l2),
                                right,
                            };
                            proof {
                                assert(seq_of(r) == target);
                                assert(bst(r));
                                assert(red_left_violation(r));
                                assert(bh_ok(r));
                                assert(bh(r) == bh(t0));
                            }
                            (r, Fix::RedLeft, rc)
                        }
                    },
                    Fix::RedLeft | Fix::RedRight => {
                        proof {
                            assert(is_red(l0));
                            assert(color == Color::Black);
                        }
                        let rsub = *right;
                        let (nt, st2, k) = fix_left(value, l2, rsub);
                        proof {
                            assert(seq_of(nt) == target);
                            assert(bh(nt) == bh(t0));
                        }
                        (nt, st2, k)
                    },
                }
            } else {
                let rsub0 = *right;
                let (r2, st, rc) = ins(rsub0, v);
                let ghost r2g = r2;
                let ghost target = seq_of(l0) + seq![value] + seq_of(r2g);
                proof {
                    broadcast use vstd::multiset::group_multiset_axioms;

                    assert(seq_of(t0) == seq_of(l0) + seq![value] + seq_of(r0));
                    lemma_insert_elems(seq_of(r0), seq_of(r2g), v);
                    lemma_node_multiset(seq_of(l0), value, seq_of(r0));
                    lemma_node_multiset(seq_of(l0), value, seq_of(r2g));
                    assert(target.to_multiset() =~= seq_of(t0).to_multiset().insert(v));
                    assert(at_or_above(seq_of(r0), value));
                    assert forall|x: u64| seq_of(r2g).contains(x) implies x >= value by {
                        if !seq_of(r0).contains(x) {
                            assert(x == v);
                        }
                    }
                    assert(at_or_above(seq_of(r2g), value));
                    assert(at_or_below(seq_of(l0), value));
                    assert(bst(l0) && red_ok(l0) && bh_ok(l0));
                    assert(bh(l0) == bh(r0));
                }
                match st {
                    Fix::Done => {
                        let r = Tree::Node { color, value, left, right: Box::new(r2) };
                        proof {
                            assert(seq_of(r) == target);
                            assert(bst(r));
                            assert(red_ok(r));
                            assert(bh_ok(r));
                            assert(bh(r) == bh(t0));
                        }
                        (r, Fix::Done, rc)
                    },
                    Fix::RedRoot => {
                        if color == Color::Black {
                            let r = Tree::Node {
                                color: Color::Black,
                                value,
                                left,
                                right: Box::new(r2),
                            };
                            proof {
                                assert(seq_of(r) == target);
                                assert(bst(r));
                                assert(red_ok(r));
                                assert(bh_ok(r));
                                assert(bh(r) == bh(t0));
                            }
                            (r, Fix::Done, rc)
                        } else {
                            let r = Tree::Node {
                                color: Color::Red,
                                value,
                                left,
                                right: Box::new(r2),
                            };
                            proof {
                                assert(seq_of(r) == target);
                                assert(bst(r));
                                assert(red_right_violation(r));
                                assert(bh_ok(r));
                                assert(bh(r) == bh(t0));
                            }
                            (r, Fix::RedRight, rc)
                        }
                    },
                    Fix::RedLeft | Fix::RedRight => {
                        proof {
                            assert(is_red(r0));
                            assert(color == Color::Black);
                        }
                        let lsub = *left;
                        let (nt, st2, k) = fix_right(value, r2, lsub);
                        proof {
                            assert(seq_of(nt) == target);
                            assert(bh(nt) == bh(t0));
                        }
                        (nt, st2, k)
                    },
                }
            }
        },
    }
}

/// A red-black tree holding `u64` values, duplicates allowed.
pub struct RedBlackTree {
    root: Tree,
    last_rotations: u64,
}

impl View for RedBlackTree {
    type V = Tree;

    closed spec fn view(&self) -> Tree {
        self.root
    }
}

impl RedBlackTree {
    /// The four invariants a red-black tree keeps between operations:
    /// binary-search-tree order, no red node with a red child, uniform
    /// black-height, and a black root.
    pub open spec fn wf(self) -> bool {
        &&& bst(self@)
        &&& red_ok(self@)
        &&& bh_ok(self@)
        &&& !is_red(self@)
    }

    /// How many rotations the latest insertion performed.
    pub closed spec fn rotations(self) -> u64 {
        self.last_rotations
    }

    /// Constructs an empty tree.
    pub fn new() -> (t: Self)
        ensures
            t@ == Tree::Leaf,
            t.wf(),
            t.rotations() == 0,
    {
        RedBlackTree { root: Tree::Leaf, last_rotations: 0 }
    }

    /// The tree structure itself, for read-only inspection.
    pub fn root(&self) -> (r: &Tree)
        ensures
            *r == self@,
    {
        &self.root
    }

    /// How many rotations the latest call of `insert` performed; zero on a
    /// fresh tree.
    pub fn last_insert_rotations(&self) -> (r: u64)
        ensures
            r == self.rotations(),
    {
        self.last_rotations
    }

    /// Inserts `value`, rebalancing as needed. Always succeeds: the tree
    /// keeps all four invariants, is no longer empty, its in-order
    /// sequence is the old one with `value` placed after any equal
    /// values — so it stays sorted, holds exactly one more copy of
    /// `value` and nothing else new — and at most two rotations were
    /// performed.
    pub fn insert(&mut self, value: u64)
        requires
            old(self).wf(),
        ensures
            final(self).wf(),
            final(self)@ is Node,
            seq_of(final(self)@) == sorted_insert(seq_of(old(self)@), value),
            seq_of(final(self)@).to_multiset() == seq_of(old(self)@).to_multiset().insert(value),
            seq_of(final(self)@).len() == seq_of(old(self)@).len() + 1,
            sorted(seq_of(final(self)@)),
            final(self).rotations() <= 2,
    {
        let mut t = Tree::Leaf;
        core::mem::swap(&mut t, &mut self.root);
        let ghost told = t;
        let (t2, st, rc) = ins(t, value);
        let ghost t2g = t2;
        proof {
            // the old root was black or absent, so no red pair is pending
            assert(!is_red(told));
            assert(st is Done || st is RedRoot);
            assert(red_ok(t2g));
        }
        let nr = blacken(t2);
        proof {
            broadcast use vstd::seq_lib::group_to_multiset_ensures;
            broadcast use vstd::multiset::group_multiset_axioms;

            assert(seq_of(paint_black(t2g)) == seq_of(t2g));
            assert(bst(paint_black(t2g)));
            assert(red_ok(paint_black(t2g)));
            assert(bh_ok(paint_black(t2g)));
            assert(!is_red(paint_black(t2g)));
            assert(seq_of(t2g).to_multiset().len() == seq_of(t2g).len());
            assert(seq_of(told).to_multiset().len() == seq_of(told).len());
            assert(seq_of(t2g).to_multiset().len() == seq_of(told).to_multiset().len() + 1);
        }
        self.root = nr;
        self.last_rotations = rc;
        proof {
            lemma_bst_sorted(self@);
            lemma_bst_sorted(told);
            lemma_sorted_insert_props(seq_of(told), value);
            lemma_sorted_multiset_unique(seq_of(self@), sorted_insert(seq_of(told), value));
        }
    }

    /// The stored values in ascending order (equal values in insertion
    /// order). Read-only; the tree is not rebalanced or changed.
    pub fn inorder(&self) -> (r: Vec<u64>)
        ensures
            r@ == seq_of(self@),
            self.wf() ==> sorted(r@),
    {
        let mut out: Vec<u64> = Vec::new();
        inorder_helper(&self.root, &mut out);
        proof {
            if self.wf() {
                lemma_bst_sorted(self@);
            }
        }
        out
    }
}

/// Walks `t` left-to-right, appending every value to `out`.
fn inorder_helper(t: &Tree, out: &mut Vec<u64>)
    ensures
        final(out)@ == old(out)@ + seq_of(*t),
    decreases t,
{
    match t {
        Tree::Leaf => {
            proof {
                assert(out@ =~= out@ + seq_of(*t));
            }
        },
        Tree::Node { value, left, right, .. } => {
            inorder_helper(&**left, out);
            out.push(*value);
            inorder_helper(&**right, out);
            proof {
                assert(out@ =~= old(out)@ + seq_of(*t));
            }
        },
    }
}

} // verus!

//! The tree structure and the specification functions that describe it:
//! the in-order sequence, the binary-search-tree order, and the red-black
//! invariants (no red node with a red child, uniform black-height).

use vstd::multiset::Multiset;
use vstd::prelude::*;

verus! {

/// The color of a tree node.
#[derive(Clone, Copy, Debug, PartialEq, Eq, Structural)]
pub enum Color {
    Red,
    Black,
}

/// A binary tree of `u64` values. `Leaf` stands for the absent child;
/// it carries no value and counts as black.
#[derive(Debug)]
pub enum Tree {
    Leaf,
    Node { color: Color, value: u64, left: Box<Tree>, right: Box<Tree> },
}

/// The in-order sequence of the values stored in `t`.
pub open spec fn seq_of(t: Tree) -> Seq<u64>
    decreases t,
{
    match t {
        Tree::Leaf => Seq::empty(),
        Tree::Node { value, left, right, .. } => seq_of(*left) + seq![value] + seq_of(*right),
    }
}

/// True when the root of `t` is a red node. A `Leaf` is black.
pub open spec fn is_red(t: Tree) -> bool {
    t matches Tree::Node { color: Color::Red, .. }
}

/// Every value of `s` lies at or below `bound`.
pub open spec fn at_or_below(s: Seq<u64>, bound: u64) -> bool {
    forall|x: u64| s.contains(x) ==> x <= bound
}

/// Every value of `s` lies at or above `bound`.
pub open spec fn at_or_above(s: Seq<u64>, bound: u64) -> bool {
    forall|x: u64| s.contains(x) ==> x >= bound
}

/// Binary-search-tree order: at every node, the left subtree holds values
/// at or below the node's own and the right subtree holds values at or
/// above it. Insertion routes a strictly smaller value left and any other
/// right, but a rotation may later carry a value equal to its new parent
/// into a left subtree, so only this weak form is invariant; it is exactly
/// what a sorted in-order sequence needs.
pub open spec fn bst(t: Tree) -> bool
    decreases t,
{
    match t {
        Tree::Leaf => true,
        Tree::Node { value, left, right, .. } => {
            &&& bst(*left)
            &&& bst(*right)
            &&& at_or_below(seq_of(*left), value)
            &&& at_or_above(seq_of(*right), value)
        },
    }
}

/// No red node has a red child, anywhere in `t`.
pub open spec fn red_ok(t: Tree) -> bool
    decreases t,
{
    match t {
        Tree::Leaf => true,
        Tree::Node { color, left, right, .. } => {
            &&& red_ok(*left)
            &&& red_ok(*right)
            &&& color == Color::Red ==> !is_red(*left) && !is_red(*right)
        },
    }
}

/// The black-height of `t`: the number of black nodes on the path that
/// always descends left, the node itself included. Meaningful when
/// `bh_ok(t)` holds, which makes every path agree on this count.
pub open spec fn bh(t: Tree) -> nat
    decreases t,
{
    match t {
        Tree::Leaf => 0,
        Tree::Node { color, left, .. } => bh(*left) + (if color == Color::Black {
            1nat
        } else {
            0nat
        }),
    }
}

/// Black-height uniformity: at every node, the two subtrees have the same
/// black-height, so all paths from any node down to a position with no
/// child pass through the same number of black nodes.
pub open spec fn bh_ok(t: Tree) -> bool
    decreases t,
{
    match t {
        Tree::Leaf => true,
        Tree::Node { left, right, .. } => bh_ok(*left) && bh_ok(*right) && bh(*left) == bh(
            *right,
        ),
    }
}

/// The height of `t`: the number of nodes on a longest path from the root
/// down to a position with no child.
pub open spec fn height(t: Tree) -> nat
    decreases t,
{
    match t {
        Tree::Leaf => 0,
        Tree::Node { left, right, .. } => 1 + (if height(*left) >= height(*right) {
            height(*left)
        } else {
            height(*right)
        }),
    }
}

/// `s` is non-decreasing.
pub open spec fn sorted(s: Seq<u64>) -> bool {
    forall|i: int, j: int| 0 <= i <= j < s.len() ==> s[i] <= s[j]
}

/// Membership in a concatenation is membership in either part.
pub broadcast proof fn lemma_concat_contains(a: Seq<u64>, b: Seq<u64>, x: u64)
    ensures
        #[trigger] (a + b).contains(x) <==> a.contains(x) || b.contains(x),
{
    if a.contains(x) {
        let i = choose|i: int| 0 <= i < a.len() && a[i] == x;
        assert((a + b)[i] == x);
    }
    if b.contains(x) {
        let i = choose|i: int| 0 <= i < b.len() && b[i] == x;
        assert((a + b)[a.len() + i] == x);
    }
    if (a + b).contains(x) {
        let i = choose|i: int| 0 <= i < (a + b).len() && (a + b)[i] == x;
        if i < a.len() {
            assert(a[i] == x);
        } else {
            assert(b[i - a.len()] == x);
        }
    }
}

/// A singleton sequence contains exactly its one element.
pub broadcast proof fn lemma_singleton_contains(x: u64, y: u64)
    ensures
        #[trigger] seq![x].contains(y) <==> x == y,
{
    if x == y {
        assert(seq![x][0] == y);
    }
}

/// What a node's in-order sequence contains: each part's values and the
/// node's own, and nothing else.
pub proof fn lemma_parts_of_node(l: Seq<u64>, x: u64, r: Seq<u64>)
    ensures
        forall|y: u64| #[trigger] l.contains(y) ==> (l + seq![x] + r).contains(y),
        forall|y: u64| #[trigger] r.contains(y) ==> (l + seq![x] + r).contains(y),
        (l + seq![x] + r).contains(x),
        forall|y: u64|
            #[trigger] (l + seq![x] + r).contains(y) ==> l.contains(y) || y == x || r.contains(y),
{
    broadcast use lemma_concat_contains, lemma_singleton_contains;

}

/// In-order traversal of a binary-search-tree yields a non-decreasing
/// sequence.
pub proof fn lemma_bst_sorted(t: Tree)
    requires
        bst(t),
    ensures
        sorted(seq_of(t)),
    decreases t,
{
    match t {
        Tree::Leaf => {},
        Tree::Node { value, left, right, .. } => {
            lemma_bst_sorted(*left);
            lemma_bst_sorted(*right);
            let l = seq_of(*left);
            let r = seq_of(*right);
            let s = seq_of(t);
            assert(s == l + seq![value] + r);
            assert forall|i: int, j: int| 0 <= i <= j < s.len() implies s[i] <= s[j] by {
                if i < l.len() {
                    assert(l.contains(l[i]));
                    assert(s[i] == l[i]);
                }
                if j < l.len() {
                    assert(s[j] == l[j]);
                }
                if i > l.len() {
                    assert(r.contains(r[i - l.len() - 1]));
                    assert(s[i] == r[i - l.len() - 1]);
                }
                if j > l.len() {
                    assert(r.contains(r[j - l.len() - 1]));
                    assert(s[j] == r[j - l.len() - 1]);
                }
            }
        },
    }
}

/// The red-black height bound: a tree with no adjacent red nodes and
/// uniform black-height is no taller than twice its black-height, plus one
/// more level when its root is red.
pub proof fn lemma_height_bound(t: Tree)
    requires
        red_ok(t),
        bh_ok(t),
    ensures
        height(t) <= 2 * bh(t) + 1,
        !is_red(t) ==> height(t) <= 2 * bh(t),
    decreases t,
{
    match t {
        Tree::Leaf => {},
        Tree::Node { color, left, right, .. } => {
            lemma_height_bound(*left);
            lemma_height_bound(*right);
        },
    }
}

/// The in-order sequence of a node is the multiset union of its parts.
pub proof fn lemma_node_multiset(a: Seq<u64>, x: u64, b: Seq<u64>)
    ensures
        (a + seq![x] + b).to_multiset() == a.to_multiset().add(b.to_multiset()).insert(x),
{
    broadcast use vstd::seq_lib::group_to_multiset_ensures;
    broadcast use vstd::multiset::group_multiset_axioms;

    vstd::seq_lib::lemma_multiset_commutative(a + seq![x], b);
    vstd::seq_lib::lemma_multiset_commutative(a, seq![x]);
    assert(seq![x] == Seq::<u64>::empty().push(x));
    assert(seq![x].to_multiset() =~= Multiset::<u64>::empty().insert(x));
    assert((a + seq![x] + b).to_multiset() =~= a.to_multiset().add(b.to_multiset()).insert(x));
}

/// The number of black nodes met when descending from the root of `t`
/// along the directions in `dirs` (true for left, false for right) until
/// a position with no child is reached or the directions run out.
pub open spec fn black_on_path(t: Tree, dirs: Seq<bool>) -> nat
    decreases t,
{
    match t {
        Tree::Leaf => 0,
        Tree::Node { color, left, right, .. } => (if color == Color::Black {
            1nat
        } else {
            0nat
        }) + (if dirs.len() > 0 {
            black_on_path(if dirs[0] {
                *left
            } else {
                *right
            }, dirs.drop_first())
        } else {
            0
        }),
    }
}

/// Black-height uniformity, path by path: when `bh_ok` holds, every path
/// from the root down to a position with no child passes through the same
/// number of black nodes, namely `bh(t)`. It holds of every node of a
/// well-formed tree, since `bh_ok` holds of every subtree.
pub proof fn lemma_black_height_uniform(t: Tree, dirs: Seq<bool>)
    requires
        bh_ok(t),
        dirs.len() >= height(t),
    ensures
        black_on_path(t, dirs) == bh(t),
    decreases t,
{
    match t {
        Tree::Leaf => {},
        Tree::Node { color, left, right, .. } => {
            if dirs[0] {
                lemma_black_height_uniform(*left, dirs.drop_first());
            } else {
                lemma_black_height_uniform(*right, dirs.drop_first());
            }
        },
    }
}

/// The sequence `s` with `v` inserted before the first value strictly
/// greater than `v`: after any values equal to `v`, as the tie-break that
/// routes equal values right demands.
pub open spec fn sorted_insert(s: Seq<u64>, v: u64) -> Seq<u64>
    decreases s.len(),
{
    if s.len() == 0 {
        seq![v]
    } else if v < s[0] {
        seq![v] + s
    } else {
        seq![s[0]] + sorted_insert(s.drop_first(), v)
    }
}

/// Inserting into a sorted sequence keeps it sorted and adds exactly the
/// one value to its contents.
pub proof fn lemma_sorted_insert_props(s: Seq<u64>, v: u64)
    requires
        sorted(s),
    ensures
        sorted(sorted_insert(s, v)),
        sorted_insert(s, v).to_multiset() == s.to_multiset().insert(v),
    decreases s.len(),
{
    broadcast use vstd::seq_lib::group_to_multiset_ensures;
    broadcast use vstd::multiset::group_multiset_axioms;
    broadcast use vstd::seq_lib::lemma_multiset_commutative;

    let out = sorted_insert(s, v);
    lemma_empty_multiset();
    if s.len() == 0 {
        assert(seq![v] == Seq::<u64>::empty().push(v));
        assert(out.to_multiset() =~= s.to_multiset().insert(v));
    } else if v < s[0] {
        assert(out == seq![v] + s);
        assert forall|i: int, j: int| 0 <= i <= j < out.len() implies out[i] <= out[j] by {
            if 0 < i {
                assert(out[i] == s[i - 1] && out[j] == s[j - 1]);
            } else if 0 < j {
                assert(out[j] == s[j - 1]);
                assert(v <= s[0] <= s[j - 1]);
            }
        }
        assert(seq![v] == Seq::<u64>::empty().push(v));
        assert(out.to_multiset() =~= s.to_multiset().insert(v));
    } else {
        let df = s.drop_first();
        assert(sorted(df)) by {
            assert(forall|k: int| 0 <= k < df.len() ==> df[k] == s[k + 1]);
        }
        lemma_sorted_insert_props(df, v);
        let rest = sorted_insert(df, v);
        assert(out == seq![s[0]] + rest);
        lemma_insert_elems(df, rest, v);
        assert forall|i: int, j: int| 0 <= i <= j < out.len() implies out[i] <= out[j] by {
            if 0 < i {
                assert(out[i] == rest[i - 1] && out[j] == rest[j - 1]);
            } else if 0 < j {
                assert(out[j] == rest[j - 1]);
                assert(rest.contains(rest[j - 1]));
                if df.contains(rest[j - 1]) {
                    let k = choose|k: int| 0 <= k < df.len() && df[k] == rest[j - 1];
                    assert(df[k] == s[k + 1]);
                    assert(s[0] <= s[k + 1]);
                } else {
                    assert(rest[j - 1] == v);
                    assert(s[0] <= v);
                }
            }
        }
        assert(s =~= seq![s[0]] + df);
        assert(seq![s[0]] == Seq::<u64>::empty().push(s[0]));
        assert(out.to_multiset() =~= s.to_multiset().insert(v));
    }
}

/// Two sorted sequences holding the same values the same number of times
/// are the same sequence: a sorted traversal is pinned down by its
/// multiset.
pub proof fn lemma_sorted_multiset_unique(a: Seq<u64>, b: Seq<u64>)
    requires
        sorted(a),
        sorted(b),
        a.to_multiset() == b.to_multiset(),
    ensures
        a == b,
    decreases a.len(),
{
    broadcast use vstd::seq_lib::group_to_multiset_ensures;
    broadcast use vstd::multiset::group_multiset_axioms;

    assert(a.to_multiset().len() == a.len());
    assert(b.to_multiset().len() == b.len());
    if a.len() == 0 {
        assert(b.len() == 0);
        assert(a =~= b);
    } else {
        assert(b.len() == a.len());
        assert(a.contains(a[0]));
        assert(b.to_multiset().count(a[0]) > 0);
        assert(b.contains(a[0]));
        let i = choose|i: int| 0 <= i < b.len() && b[i] == a[0];
        assert(b[0] <= a[0]);
        assert(a.to_multiset().count(b[0]) > 0);
        assert(a.contains(b[0]));
        let j = choose|j: int| 0 <= j < a.len() && a[j] == b[0];
        assert(a[0] <= b[0]);
        assert(a[0] == b[0]);
        let a1 = a.remove(0);
        let b1 = b.remove(0);
        assert(a1.to_multiset() == a.to_multiset().remove(a[0]));
        assert(b1.to_multiset() == b.to_multiset().remove(b[0]));
        assert(sorted(a1)) by {
            assert(forall|k: int| 0 <= k < a1.len() ==> a1[k] == a[k + 1]);
        }
        assert(sorted(b1)) by {
            assert(forall|k: int| 0 <= k < b1.len() ==> b1[k] == b[k + 1]);
        }
        lemma_sorted_multiset_unique(a1, b1);
        assert(a =~= b) by {
            assert(forall|k: int| 1 <= k < a.len() ==> a[k] == a1[k - 1] && b[k] == b1[k - 1]);
        }
    }
}

/// The empty sequence holds the empty multiset.
pub proof fn lemma_empty_multiset()
    ensures
        Seq::<u64>::empty().to_multiset() == Multiset::<u64>::empty(),
{
    broadcast use vstd::seq_lib::group_to_multiset_ensures;
    broadcast use vstd::multiset::group_multiset_axioms;

    assert(Seq::<u64>::empty().to_multiset() =~= Multiset::<u64>::empty());
}

/// Whatever a sequence holds after one value was added (in the multiset
/// sense), each of its values is either the added one or was already there.
pub proof fn lemma_insert_elems(a: Seq<u64>, b: Seq<u64>, v: u64)
    requires
        b.to_multiset() == a.to_multiset().insert(v),
    ensures
        forall|x: u64| b.contains(x) ==> a.contains(x) || x == v,
{
    broadcast use vstd::seq_lib::group_to_multiset_ensures;
    broadcast use vstd::multiset::group_multiset_axioms;

    assert forall|x: u64| b.contains(x) implies a.contains(x) || x == v by {
        assert(b.to_multiset().count(x) > 0);
        if x != v {
            assert(a.to_multiset().count(x) == b.to_multiset().count(x));
        }
    }
}

} // verus!

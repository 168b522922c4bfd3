//! The mathematical model of a tree: its interpretation as a finite map,
//! the binary-search-order invariant, and the red-black color invariants.

use vstd::prelude::*;

use crate::node::OptNode;
use crate::node::RBColor;

verus! {

/// The finite map stored in the subtree: every node contributes its
/// key/value pair.
pub open spec fn as_map<V>(t: OptNode<V>) -> Map<u64, V>
    decreases t,
{
    match t {
        None => Map::empty(),
        Some(n) => as_map(n.left_child).union_prefer_right(as_map(n.right_child)).insert(
            n.key,
            n.value,
        ),
    }
}

/// Binary-search order: within every node, all keys to the left are
/// strictly smaller and all keys to the right strictly greater.  This also
/// makes every key unique.
pub open spec fn bst_ok<V>(t: OptNode<V>) -> bool
    decreases t,
{
    match t {
        None => true,
        Some(n) => {
            &&& forall|k: u64| as_map(n.left_child).dom().contains(k) ==> k < n.key
            &&& forall|k: u64| as_map(n.right_child).dom().contains(k) ==> k > n.key
            &&& bst_ok(n.left_child)
            &&& bst_ok(n.right_child)
        },
    }
}

/// Whether the subtree is non-empty with a red node on top.  An absent
/// child counts as black.
pub open spec fn is_red<V>(t: OptNode<V>) -> bool {
    match t {
        None => false,
        Some(n) => n.color is Red,
    }
}

/// The number of black nodes on the path from the top of the subtree to
/// its leftmost absent child, the top node included.
pub open spec fn black_height<V>(t: OptNode<V>) -> nat
    decreases t,
{
    match t {
        None => 0,
        Some(n) => black_height(n.left_child) + if n.color is Black {
            1nat
        } else {
            0nat
        },
    }
}

/// The black-height invariant: within every node, both child subtrees
/// carry the same number of black nodes on every path to an absent child.
pub open spec fn balanced<V>(t: OptNode<V>) -> bool
    decreases t,
{
    match t {
        None => true,
        Some(n) => {
            &&& balanced(n.left_child)
            &&& balanced(n.right_child)
            &&& black_height(n.left_child) == black_height(n.right_child)
        },
    }
}

/// The red invariant: no red node has a red child.
pub open spec fn no_red_red<V>(t: OptNode<V>) -> bool
    decreases t,
{
    match t {
        None => true,
        Some(n) => {
            &&& n.color is Red ==> !is_red(n.left_child) && !is_red(n.right_child)
            &&& no_red_red(n.left_child)
            &&& no_red_red(n.right_child)
        },
    }
}

/// Both color invariants together.
pub open spec fn rb_ok<V>(t: OptNode<V>) -> bool {
    balanced(t) && no_red_red(t)
}

/// The keys of the subtree as an in-order traversal yields them.
pub open spec fn key_seq<V>(t: OptNode<V>) -> Seq<u64>
    decreases t,
{
    match t {
        None => Seq::empty(),
        Some(n) => key_seq(n.left_child) + seq![n.key] + key_seq(n.right_child),
    }
}

/// The height of the subtree: the number of nodes on a longest path from
/// the top to an absent child.
pub open spec fn tree_height<V>(t: OptNode<V>) -> nat
    decreases t,
{
    match t {
        None => 0,
        Some(n) => 1 + if tree_height(n.left_child) >= tree_height(n.right_child) {
            tree_height(n.left_child)
        } else {
            tree_height(n.right_child)
        },
    }
}

/// Two subtrees of the same shape: equal node for node in position, key
/// and color, with only the stored values free to differ.
pub open spec fn same_shape<V>(a: OptNode<V>, b: OptNode<V>) -> bool
    decreases a,
{
    match (a, b) {
        (None, None) => true,
        (Some(x), Some(y)) => {
            &&& x.color == y.color
            &&& x.key == y.key
            &&& same_shape(x.left_child, y.left_child)
            &&& same_shape(x.right_child, y.right_child)
        },
        _ => false,
    }
}

} // verus!

//! Lookup: a pure binary-search descent that returns mutable access to
//! the stored value of the queried key, without touching keys, colors or
//! the shape of the tree.

use vstd::prelude::*;

use crate::lemmas::lemma_same_shape_refl;
use crate::model::as_map;
use crate::model::bst_ok;
use crate::model::same_shape;
use crate::node::RBNode;

verus! {

/// Descends from the given node comparing the queried key with the node
/// key — left on less, right on greater — and returns mutable access to
/// the stored value on equal, or nothing when the descent runs into an
/// absent child.  Only the returned value can be written through; keys,
/// colors and the shape of the subtree stay as they were.
pub fn search_node<'a, V>(node: &'a mut RBNode<V>, key: u64) -> (r: Option<&'a mut V>)
    requires
        bst_ok(Some(Box::new(*old(node)))),
    ensures
        r is Some <==> as_map(Some(Box::new(*old(node)))).dom().contains(key),
        r is None ==> *final(node) == *old(node),
        r matches Some(p) ==> {
            &&& *p == as_map(Some(Box::new(*old(node))))[key]
            &&& as_map(Some(Box::new(*final(node)))) =~= as_map(
                Some(Box::new(*old(node))),
            ).insert(key, *final(p))
            &&& same_shape(Some(Box::new(*final(node))), Some(Box::new(*old(node))))
        },
    decreases *old(node),
{
    let ghost n0 = *node;
    if key < node.key {
        proof {
            assert(bst_ok(Some(Box::new(n0))));
            assert(forall|k: u64| as_map(n0.right_child).dom().contains(k) ==> k > n0.key);
            assert(as_map(Some(Box::new(n0))).dom().contains(key)
                ==> as_map(n0.left_child).dom().contains(key) || as_map(
                n0.right_child,
            ).dom().contains(key) || key == n0.key);
            assert(key != n0.key);
            assert(!as_map(n0.right_child).dom().contains(key));
            if as_map(n0.left_child).dom().contains(key) {
                assert(as_map(Some(Box::new(n0)))[key] == as_map(n0.left_child)[key]);
            }
            lemma_same_shape_refl(n0.right_child);
            if n0.left_child is None {
                assert(as_map(n0.left_child) == Map::<u64, V>::empty());
            }
        }
        match &mut node.left_child {
            None => None,
            Some(l) => search_node(&mut **l, key),
        }
    } else if key > node.key {
        proof {
            assert(bst_ok(Some(Box::new(n0))));
            assert(forall|k: u64| as_map(n0.left_child).dom().contains(k) ==> k < n0.key);
            assert(as_map(Some(Box::new(n0))).dom().contains(key)
                ==> as_map(n0.left_child).dom().contains(key) || as_map(
                n0.right_child,
            ).dom().contains(key) || key == n0.key);
            assert(key != n0.key);
            assert(!as_map(n0.left_child).dom().contains(key));
            if as_map(n0.right_child).dom().contains(key) {
                assert(as_map(Some(Box::new(n0)))[key] == as_map(n0.right_child)[key]);
            }
            lemma_same_shape_refl(n0.left_child);
            if n0.right_child is None {
                assert(as_map(n0.right_child) == Map::<u64, V>::empty());
            }
        }
        match &mut node.right_child {
            None => None,
            Some(c) => search_node(&mut **c, key),
        }
    } else {
        proof {
            assert(bst_ok(Some(Box::new(n0))));
            assert(key == n0.key);
            assert(as_map(Some(Box::new(n0))).dom().contains(key));
            assert(as_map(Some(Box::new(n0)))[key] == n0.value);
            lemma_same_shape_refl(n0.left_child);
            lemma_same_shape_refl(n0.right_child);
        }
        Some(&mut node.value)
    }
}

} // verus!

//! The map façade: owns the root, orchestrates insertion and lookup, and
//! keeps the root black, so that after every completed operation the
//! whole tree satisfies the red-black invariants.

use vstd::prelude::*;

use crate::insert::insert_n;
use crate::model::as_map;
use crate::model::bst_ok;
use crate::model::is_red;
use crate::model::key_seq;
use crate::model::rb_ok;
use crate::model::tree_height;
use crate::node::OptNode;
use crate::search::search_node;

verus! {

broadcast use crate::lemmas::lemma_same_shape_preserves;

/// An ordered map from `u64` keys to values, balanced as a red-black
/// tree.  The tree exclusively owns its root, and every node its
/// children.
pub struct RBTree<V> {
    pub root: OptNode<V>,
}

impl<V> View for RBTree<V> {
    type V = Map<u64, V>;

    open spec fn view(&self) -> Map<u64, V> {
        as_map(self.root)
    }
}

impl<V> RBTree<V> {
    /// All the invariants the tree maintains: binary-search order, equal
    /// black counts on every path, no red node with a red child, and a
    /// black root.
    pub open spec fn wf(self) -> bool {
        &&& bst_ok(self.root)
        &&& rb_ok(self.root)
        &&& !is_red(self.root)
    }

    /// The empty map: no root, every invariant holds trivially.
    pub fn new() -> (t: Self)
        ensures
            t.wf(),
            t@ == Map::<u64, V>::empty(),
    {
        RBTree { root: None }
    }

    /// Inserts the pair, rebalances, and forces the root black.  An equal
    /// key has its value replaced — the previous value is returned and
    /// the shape of the tree is untouched; a new key returns nothing and
    /// grows the map by exactly that key.
    pub fn insert(&mut self, key: u64, value: V) -> (prev: Option<V>)
        requires
            old(self).wf(),
        ensures
            final(self).wf(),
            final(self)@ == old(self)@.insert(key, value),
            prev == (if old(self)@.dom().contains(key) {
                Some(old(self)@[key])
            } else {
                None::<V>
            }),
    {
        insert_n(&mut self.root, key, value)
    }

    /// Looks the key up and returns mutable access to its stored value,
    /// or nothing when the key is absent.  Writing through the returned
    /// reference changes that one value and nothing else; all invariants
    /// keep holding.
    pub fn get_mut(&mut self, key: u64) -> (r: Option<&mut V>)
        requires
            old(self).wf(),
        ensures
            final(self).wf(),
            r is Some <==> old(self)@.dom().contains(key),
            r is None ==> *final(self) == *old(self),
            r matches Some(p) ==> {
                &&& *p == old(self)@[key]
                &&& final(self)@ == old(self)@.insert(key, *final(p))
            },
    {
        match &mut self.root {
            None => None,
            Some(n) => search_node(&mut **n, key),
        }
    }

    /// The keys of the map, in the order an in-order traversal visits
    /// them; under the binary-search invariant that order is strictly
    /// increasing.
    pub fn in_order_keys(&self) -> (r: Vec<u64>)
        ensures
            r@ == key_seq(self.root),
    {
        let mut out = Vec::<u64>::new();
        push_keys(&self.root, &mut out);
        out
    }

    /// The number of nodes on a longest path from the root down to an
    /// absent child.
    pub fn height(&self) -> (h: usize)
        requires
            tree_height(self.root) <= usize::MAX,
        ensures
            h == tree_height(self.root),
    {
        opt_height(&self.root)
    }
}

/// Appends the subtree's keys to the vector, in in-order key order.
fn push_keys<V>(t: &OptNode<V>, out: &mut Vec<u64>)
    ensures
        final(out)@ == old(out)@ + key_seq(*t),
    decreases t,
{
    match t {
        None => {
            proof {
                assert(out@ =~= out@ + key_seq(*t));
            }
        },
        Some(n) => {
            push_keys(&n.left_child, out);
            out.push(n.key);
            push_keys(&n.right_child, out);
            proof {
                assert(out@ =~= old(out)@ + key_seq(*t));
            }
        },
    }
}

/// The height of the subtree, computed by recursive descent.
fn opt_height<V>(t: &OptNode<V>) -> (h: usize)
    requires
        tree_height(*t) <= usize::MAX,
    ensures
        h == tree_height(*t),
    decreases t,
{
    match t {
        None => 0,
        Some(n) => {
            proof {
                assert(tree_height(*t) == 1 + if tree_height(n.left_child) >= tree_height(
                    n.right_child,
                ) {
                    tree_height(n.left_child)
                } else {
                    tree_height(n.right_child)
                });
            }
            let hl = opt_height(&n.left_child);
            let hr = opt_height(&n.right_child);
            if hl >= hr {
                hl + 1
            } else {
                hr + 1
            }
        },
    }
}

} // verus!

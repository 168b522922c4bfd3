//! Proved facts about the model: what the invariants buy a user of the
//! map — sorted traversal, key counts, the height bound — and the shape
//! lemmas the lookup path relies on.

use vstd::prelude::*;

use crate::model::as_map;
use crate::model::balanced;
use crate::model::black_height;
use crate::model::bst_ok;
use crate::model::is_red;
use crate::model::key_seq;
use crate::model::no_red_red;
use crate::model::same_shape;
use crate::model::tree_height;
use crate::node::OptNode;
use crate::tree::RBTree;

verus! {

broadcast use vstd::set::group_set_axioms;


/// Every subtree has the same shape as itself.
pub proof fn lemma_same_shape_refl<V>(t: OptNode<V>)
    ensures
        same_shape(t, t),
    decreases t,
{
    match t {
        None => {},
        Some(n) => {
            lemma_same_shape_refl(n.left_child);
            lemma_same_shape_refl(n.right_child);
        },
    }
}

/// Subtrees of the same shape agree on everything that does not read the
/// stored values: the key set, the in-order key sequence, binary-search
/// order, and all three color measures.
pub broadcast proof fn lemma_same_shape_preserves<V>(a: OptNode<V>, b: OptNode<V>)
    ensures
        #[trigger] same_shape(a, b) ==> {
            &&& as_map(a).dom() == as_map(b).dom()
            &&& key_seq(a) == key_seq(b)
            &&& bst_ok(a) == bst_ok(b)
            &&& black_height(a) == black_height(b)
            &&& balanced(a) == balanced(b)
            &&& no_red_red(a) == no_red_red(b)
            &&& is_red(a) == is_red(b)
        },
    decreases a,
{
    if same_shape(a, b) {
        match (a, b) {
            (Some(x), Some(y)) => {
                lemma_same_shape_preserves(x.left_child, y.left_child);
                lemma_same_shape_preserves(x.right_child, y.right_child);
                assert(as_map(a).dom() =~= as_map(b).dom());
                assert(key_seq(a) == key_seq(b));
                assert(bst_ok(a) == bst_ok(b));
            },
            _ => {},
        }
    }
}

/// A key occurs in the in-order key sequence of a subtree exactly when
/// the subtree's map contains it.
pub proof fn lemma_key_seq_dom<V>(t: OptNode<V>)
    ensures
        forall|k: u64| #[trigger] key_seq(t).contains(k) <==> as_map(t).dom().contains(k),
    decreases t,
{
    match t {
        None => {
            assert(as_map(t) =~= Map::<u64, V>::empty());
            assert(forall|k: u64| !(#[trigger] key_seq(t).contains(k)));
        },
        Some(n) => {
            lemma_key_seq_dom(n.left_child);
            lemma_key_seq_dom(n.right_child);
            let l = key_seq(n.left_child);
            let r = key_seq(n.right_child);
            let s = key_seq(t);
            assert(s == l + seq![n.key] + r);
            assert(forall|k: u64|
                as_map(t).dom().contains(k) <==> k == n.key || as_map(
                    n.left_child,
                ).dom().contains(k) || as_map(n.right_child).dom().contains(k));
            assert forall|k: u64| #[trigger] s.contains(k) implies as_map(t).dom().contains(k) by {
                let i = choose|i: int| 0 <= i < s.len() && s[i] == k;
                if i < l.len() {
                    assert(l[i] == k);
                    assert(l.contains(k));
                } else if i == l.len() {
                    assert(k == n.key);
                } else {
                    assert(r[i - l.len() - 1] == k);
                    assert(r.contains(k));
                }
            }
            assert forall|k: u64| as_map(t).dom().contains(k) implies #[trigger] s.contains(k) by {
                if k == n.key {
                    assert(s[l.len() as int] == k);
                } else if as_map(n.left_child).dom().contains(k) {
                    assert(l.contains(k));
                    let i = choose|i: int| 0 <= i < l.len() && l[i] == k;
                    assert(s[i] == k);
                } else {
                    assert(r.contains(k));
                    let i = choose|i: int| 0 <= i < r.len() && r[i] == k;
                    assert(s[l.len() + 1 + i] == k);
                }
            }
        },
    }
}

/// Binary-search order makes the in-order key sequence strictly
/// increasing: for every pair of positions, the earlier key is the
/// smaller one.  In particular no key occurs twice.
pub proof fn lemma_in_order_sorted<V>(t: OptNode<V>)
    requires
        bst_ok(t),
    ensures
        forall|i: int, j: int|
            0 <= i < j < key_seq(t).len() ==> #[trigger] key_seq(t)[i] < #[trigger] key_seq(t)[j],
    decreases t,
{
    match t {
        None => {},
        Some(n) => {
            lemma_in_order_sorted(n.left_child);
            lemma_in_order_sorted(n.right_child);
            lemma_key_seq_dom(n.left_child);
            lemma_key_seq_dom(n.right_child);
            let l = key_seq(n.left_child);
            let r = key_seq(n.right_child);
            let s = key_seq(t);
            assert(s == l + seq![n.key] + r);
            assert forall|i: int, j: int| 0 <= i < j < s.len() implies #[trigger] s[i] < #[trigger] s[j] by {
                if i < l.len() {
                    assert(s[i] == l[i]);
                    assert(l.contains(l[i]));
                    assert(l[i] < n.key);
                }
                if j < l.len() {
                    assert(s[j] == l[j]);
                }
                if i > l.len() {
                    assert(s[i] == r[i - l.len() - 1]);
                }
                if j > l.len() {
                    assert(s[j] == r[j - l.len() - 1]);
                    assert(r.contains(r[j - l.len() - 1]));
                    assert(r[j - l.len() - 1] > n.key);
                }
            }
        },
    }
}

/// Under binary-search order the map is finite and its key count equals
/// the length of the in-order key sequence: every node contributes
/// exactly one key.
pub proof fn lemma_key_count<V>(t: OptNode<V>)
    requires
        bst_ok(t),
    ensures
        as_map(t).dom().finite(),
        as_map(t).dom().len() == key_seq(t).len(),
    decreases t,
{
    match t {
        None => {
            assert(as_map(t).dom() =~= Set::<u64>::empty());
        },
        Some(n) => {
            lemma_key_count(n.left_child);
            lemma_key_count(n.right_child);
            let dl = as_map(n.left_child).dom();
            let dr = as_map(n.right_child).dom();
            assert(as_map(t).dom() =~= (dl + dr).insert(n.key));
            assert(dl.disjoint(dr)) by {
                assert(forall|k: u64| dl.contains(k) ==> k < n.key);
                assert(forall|k: u64| dr.contains(k) ==> k > n.key);
            }
            vstd::set_lib::lemma_set_disjoint_lens(dl, dr);
            assert(!(dl + dr).contains(n.key));
        },
    }
}

/// Inserting into a finite map keeps the key count unchanged when the
/// key was already present, and grows it by exactly one when it was not.
pub proof fn lemma_insert_key_count<V>(m: Map<u64, V>, key: u64, value: V)
    requires
        m.dom().finite(),
    ensures
        m.insert(key, value).dom().finite(),
        m.dom().contains(key) ==> m.insert(key, value).dom().len() == m.dom().len(),
        !m.dom().contains(key) ==> m.insert(key, value).dom().len() == m.dom().len() + 1,
{
    assert(m.insert(key, value).dom() =~= m.dom().insert(key));
}

/// The red-black invariants bound the height of a subtree: no path is
/// more than twice as long as the black count it crosses, and a black
/// count of `b` forces at least `2^b - 1` keys.  Together these give
/// height at most `2·log2(n + 1)` for a black-rooted tree of `n` keys.
pub proof fn lemma_height_bound<V>(t: OptNode<V>)
    requires
        balanced(t),
        no_red_red(t),
    ensures
        tree_height(t) <= 2 * black_height(t) + if is_red(t) {
            1nat
        } else {
            0nat
        },
        vstd::arithmetic::power2::pow2(black_height(t)) <= key_seq(t).len() + 1,
    decreases t,
{
    vstd::arithmetic::power2::lemma_pow2_pos(black_height(t));
    match t {
        None => {
            vstd::arithmetic::power::lemma_pow0(2);
            assert(vstd::arithmetic::power2::pow2(0) == 1);
        },
        Some(n) => {
            lemma_height_bound(n.left_child);
            lemma_height_bound(n.right_child);
            let bl = black_height(n.left_child);
            assert(key_seq(t).len() == key_seq(n.left_child).len() + 1 + key_seq(
                n.right_child,
            ).len());
            if n.color is Black {
                vstd::arithmetic::power2::lemma_pow2_unfold(black_height(t));
            }
            vstd::arithmetic::power2::lemma_pow2_pos(bl);
        },
    }
}

/// Round trip: after inserting a pair, looking the key up in the
/// resulting map yields exactly the inserted value.  With the contracts
/// of insertion and lookup this is the statement that `insert(k, v)`
/// followed by a search for `k` returns `v`.
pub proof fn lemma_insert_round_trip<V>(m: Map<u64, V>, key: u64, value: V)
    ensures
        m.insert(key, value).dom().contains(key),
        m.insert(key, value)[key] == value,
{
}

/// The laws above, stated of a well-formed tree.  Its key count equals
/// the length of the in-order key sequence, which is strictly
/// increasing; and with `n` keys and black count `b` the tree satisfies
/// `2^b <= n + 1` and `height <= 2·b`, so the height is at most
/// `2·log2(n + 1)`.
pub proof fn lemma_tree_shape<V>(t: RBTree<V>)
    requires
        t.wf(),
    ensures
        t@.dom().finite(),
        t@.dom().len() == key_seq(t.root).len(),
        forall|i: int, j: int|
            0 <= i < j < key_seq(t.root).len() ==> key_seq(t.root)[i] < key_seq(t.root)[j],
        vstd::arithmetic::power2::pow2(black_height(t.root)) <= t@.dom().len() + 1,
        tree_height(t.root) <= 2 * black_height(t.root),
{
    lemma_key_count(t.root);
    lemma_in_order_sorted(t.root);
    lemma_height_bound(t.root);
}

} // verus!

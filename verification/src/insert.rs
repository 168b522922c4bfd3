//! Insertion: the raw search-and-attach pass, the rotation primitive, and
//! the recolor/rotate fixup that restores the red-black invariants.
//!
//! Insertion recurses down to the attachment point, colors a fresh node
//! red, and on the way back up repairs any red-red violation at the level
//! of the violating node's grandparent.  The fixup distinguishes the
//! classic cases: a red uncle is handled by recoloring, which may move the
//! violation two levels up; a black uncle is handled by one or two
//! rotations, which end the repair.  Ownership of the affected subtrees is
//! moved explicitly during a rotation, so no parent links are ever stored.

use vstd::prelude::*;

use crate::model::as_map;
use crate::model::balanced;
use crate::model::black_height;
use crate::model::bst_ok;
use crate::model::is_red;
use crate::model::no_red_red;
use crate::model::rb_ok;
use crate::node::OptNode;
use crate::node::RBColor;
use crate::node::RBNode;

verus! {

/// Whether the optional subtree has a red node on top.
pub fn opt_is_red<V>(t: &OptNode<V>) -> (b: bool)
    ensures
        b == is_red(*t),
{
    match t {
        Some(n) => n.color == RBColor::Red,
        None => false,
    }
}

/// A single rotation that promotes the right child: the right child takes
/// the node's place, the node becomes its left child, and the promoted
/// child's former left subtree is relinked as the node's right subtree.
/// Binary-search order and the stored map are preserved.
pub fn rotate_left<V>(node: Box<RBNode<V>>) -> (r: Box<RBNode<V>>)
    requires
        node.right_child is Some,
    ensures
        ({
            let rc = node.right_child.unwrap();
            &&& r.color == rc.color
            &&& r.key == rc.key
            &&& r.value == rc.value
            &&& r.right_child == rc.right_child
            &&& r.left_child is Some
            &&& {
                let m = r.left_child.unwrap();
                &&& m.color == node.color
                &&& m.key == node.key
                &&& m.value == node.value
                &&& m.left_child == node.left_child
                &&& m.right_child == rc.left_child
            }
        }),
        bst_ok(Some(node)) ==> bst_ok(Some(r)) && as_map(Some(r)) == as_map(Some(node)),
{
    let ghost n0 = *node;
    let mut node = node;
    let taken = node.right_child.take();
    match taken {
        Some(mut rc) => {
            node.right_child = rc.left_child.take();
            rc.left_child = Some(node);
            proof {
                lemma_rotate_preserves(n0, *rc);
            }
            rc
        },
        None => vstd::pervasive::unreached(),
    }
}

/// A single rotation that promotes the left child, the mirror image of
/// `rotate_left`.
pub fn rotate_right<V>(node: Box<RBNode<V>>) -> (r: Box<RBNode<V>>)
    requires
        node.left_child is Some,
    ensures
        ({
            let lc = node.left_child.unwrap();
            &&& r.color == lc.color
            &&& r.key == lc.key
            &&& r.value == lc.value
            &&& r.left_child == lc.left_child
            &&& r.right_child is Some
            &&& {
                let m = r.right_child.unwrap();
                &&& m.color == node.color
                &&& m.key == node.key
                &&& m.value == node.value
                &&& m.right_child == node.right_child
                &&& m.left_child == lc.right_child
            }
        }),
        bst_ok(Some(node)) ==> bst_ok(Some(r)) && as_map(Some(r)) == as_map(Some(node)),
{
    let ghost n0 = *node;
    let mut node = node;
    let taken = node.left_child.take();
    match taken {
        Some(mut lc) => {
            node.left_child = lc.right_child.take();
            lc.right_child = Some(node);
            proof {
                lemma_rotate_preserves(*lc, n0);
            }
            lc
        },
        None => vstd::pervasive::unreached(),
    }
}

/// The ordering and map content of a two-node configuration do not depend
/// on which of the two nodes is on top: `lo` above (with `hi` as its right
/// child) stores the same map as `hi` above (with `lo` as its left child),
/// and one arrangement is in binary-search order exactly when the other
/// is.  Both rotation directions are instances of this fact.
proof fn lemma_rotate_preserves<V>(lo: RBNode<V>, hi: RBNode<V>)
    requires
        hi.left_child is Some,
        ({
            let l = hi.left_child.unwrap();
            &&& lo.key == l.key
            &&& lo.value == l.value
            &&& lo.left_child == l.left_child
            &&& lo.right_child is Some
            &&& {
                let m = lo.right_child.unwrap();
                &&& m.key == hi.key
                &&& m.value == hi.value
                &&& m.left_child == l.right_child
                &&& m.right_child == hi.right_child
            }
        }),
    ensures
        bst_ok(Some(Box::new(hi))) ==> bst_ok(Some(Box::new(lo))) && as_map(Some(Box::new(lo)))
            == as_map(Some(Box::new(hi))),
        bst_ok(Some(Box::new(lo))) ==> bst_ok(Some(Box::new(hi))) && as_map(Some(Box::new(lo)))
            == as_map(Some(Box::new(hi))),
{
    let l = hi.left_child.unwrap();
    let m = lo.right_child.unwrap();
    let ma = as_map(l.left_child);
    let mb = as_map(l.right_child);
    let mc = as_map(hi.right_child);
    assert(as_map(Some(Box::new(hi))) == as_map(hi.left_child).union_prefer_right(mc).insert(
        hi.key,
        hi.value,
    ));
    assert(as_map(hi.left_child) == ma.union_prefer_right(mb).insert(l.key, l.value));
    assert(as_map(Some(Box::new(lo))) == ma.union_prefer_right(as_map(lo.right_child)).insert(
        lo.key,
        lo.value,
    ));
    assert(as_map(lo.right_child) == mb.union_prefer_right(mc).insert(hi.key, hi.value));
    if bst_ok(Some(Box::new(hi))) {
        assert(bst_ok(hi.left_child));
        assert(bst_ok(Some(l)));
        assert(bst_ok(l.left_child) && bst_ok(l.right_child));
        assert(as_map(hi.left_child).dom().contains(l.key));
        assert(forall|k: u64| ma.dom().contains(k) ==> k < l.key);
        assert(forall|k: u64| mb.dom().contains(k) ==> l.key < k && k < hi.key) by {
            assert(forall|k: u64| mb.dom().contains(k) ==> as_map(hi.left_child).dom().contains(k));
        }
        assert(as_map(Some(Box::new(lo))) =~= as_map(Some(Box::new(hi))));
        assert(bst_ok(hi.right_child));
        assert(l.key < hi.key);
        assert(bst_ok(Some(m))) by {
            assert(forall|k: u64| as_map(m.left_child).dom().contains(k) ==> k < m.key);
            assert(forall|k: u64| as_map(m.right_child).dom().contains(k) ==> k > m.key);
        }
        assert(forall|k: u64| as_map(lo.right_child).dom().contains(k) ==> k > lo.key) by {
            assert(forall|k: u64|
                as_map(lo.right_child).dom().contains(k) ==> mb.dom().contains(k) || mc.dom().contains(
                    k,
                ) || k == hi.key);
        }
        assert(bst_ok(Some(Box::new(lo))));
    }
    if bst_ok(Some(Box::new(lo))) {
        assert(bst_ok(lo.right_child));
        assert(bst_ok(Some(m)));
        assert(bst_ok(m.left_child) && bst_ok(m.right_child));
        assert(as_map(lo.right_child).dom().contains(hi.key));
        assert(forall|k: u64| mc.dom().contains(k) ==> k > hi.key);
        assert(forall|k: u64| mb.dom().contains(k) ==> lo.key < k && k < hi.key) by {
            assert(forall|k: u64| mb.dom().contains(k) ==> as_map(lo.right_child).dom().contains(
                k,
            ));
        }
        assert(as_map(Some(Box::new(lo))) =~= as_map(Some(Box::new(hi))));
        assert(bst_ok(lo.left_child));
        assert(l.key < hi.key);
        assert(bst_ok(Some(l))) by {
            assert(forall|k: u64| as_map(l.left_child).dom().contains(k) ==> k < l.key);
            assert(forall|k: u64| as_map(l.right_child).dom().contains(k) ==> k > l.key);
        }
        assert(forall|k: u64| as_map(hi.left_child).dom().contains(k) ==> k < hi.key) by {
            assert(forall|k: u64|
                as_map(hi.left_child).dom().contains(k) ==> ma.dom().contains(k) || mb.dom().contains(
                    k,
                ) || k == l.key);
        }
        assert(bst_ok(Some(Box::new(hi))));
    }
}

/// Changing only a node's color tag leaves the stored map and the
/// binary-search order untouched.
proof fn lemma_recolor<V>(a: RBNode<V>, b: RBNode<V>)
    requires
        a.key == b.key,
        a.value == b.value,
        a.left_child == b.left_child,
        a.right_child == b.right_child,
    ensures
        as_map(Some(Box::new(a))) == as_map(Some(Box::new(b))),
        bst_ok(Some(Box::new(a))) == bst_ok(Some(Box::new(b))),
{
    assert(as_map(Some(Box::new(a))) == as_map(a.left_child).union_prefer_right(
        as_map(a.right_child),
    ).insert(a.key, a.value));
    assert(as_map(Some(Box::new(b))) == as_map(b.left_child).union_prefer_right(
        as_map(b.right_child),
    ).insert(b.key, b.value));
    assert(bst_ok(Some(Box::new(a))) <==> bst_ok(Some(Box::new(b))));
}

/// Repairs a red-red violation between the node's left child and a left
/// grandchild, if there is one, after an insertion into the left subtree.
///
/// A red uncle is recolored, which may leave this node red (its caller
/// repairs further up); a black or absent uncle is resolved by one or two
/// rotations, after which the subtree is fully valid again.
pub fn fixup_left<V>(g: Box<RBNode<V>>) -> (r: Box<RBNode<V>>)
    requires
        g.left_child is Some,
        bst_ok(Some(g)),
        balanced(Some(g)),
        no_red_red(g.right_child),
        no_red_red(g.left_child.unwrap().left_child),
        no_red_red(g.left_child.unwrap().right_child),
        g.left_child.unwrap().color is Red ==> !(is_red(g.left_child.unwrap().left_child)
            && is_red(g.left_child.unwrap().right_child)),
        g.color is Red ==> no_red_red(g.left_child) && !is_red(g.right_child),
    ensures
        bst_ok(Some(r)),
        as_map(Some(r)) == as_map(Some(g)),
        black_height(Some(r)) == black_height(Some(g)),
        balanced(Some(r)),
        g.color is Black ==> no_red_red(Some(r)),
        g.color is Red ==> r.color is Red && no_red_red(r.left_child) && no_red_red(r.right_child)
            && !(is_red(r.left_child) && is_red(r.right_child)),
{
    let ghost g0 = *g;
    let mut g = g;
    let taken = g.left_child.take();
    match taken {
        None => vstd::pervasive::unreached(),
        Some(mut l) => {
            let ghost l0 = *l;
            let l_red = l.color == RBColor::Red;
            let ll_red = opt_is_red(&l.left_child);
            let lr_red = opt_is_red(&l.right_child);
            if l_red && (ll_red || lr_red) {
                proof {
                    // a red parent of this node would contradict the
                    // red-red freedom required of a red node's child
                    assert(g0.color is Black);
                }
                if opt_is_red(&g.right_child) {
                    // red uncle: push the blackness down from this node
                    l.set_color(RBColor::Black);
                    let taken_u = g.right_child.take();
                    match taken_u {
                        Some(mut u) => {
                            u.set_color(RBColor::Black);
                            g.right_child = Some(u);
                        },
                        None => {
                            proof {
                                assert(false);
                            }
                        },
                    }
                    g.left_child = Some(l);
                    g.set_color(RBColor::Red);
                    proof {
                        let lb = *g.left_child.unwrap();
                        let ub = *g.right_child.unwrap();
                        let lorig = *g0.left_child.unwrap();
                        let uorig = *g0.right_child.unwrap();
                        lemma_recolor(lb, lorig);
                        lemma_recolor(ub, uorig);
                        assert(bst_ok(g0.left_child) && bst_ok(g0.right_child));
                        assert(as_map(Some(g)) == as_map(Some(Box::new(g0))));
                        assert(bst_ok(Some(g)));
                        assert(black_height(Some(Box::new(lb))) == black_height(
                            g0.left_child,
                        ) + 1);
                        assert(black_height(Some(Box::new(ub))) == black_height(
                            g0.right_child,
                        ) + 1);
                        assert(black_height(Some(g)) == black_height(Some(Box::new(g0))));
                        assert(balanced(g0.left_child) && balanced(g0.right_child));
                        assert(balanced(Some(Box::new(lb))) && balanced(Some(Box::new(ub))));
                        assert(balanced(Some(g)));
                        assert(no_red_red(Some(Box::new(lb))));
                        assert(no_red_red(Some(Box::new(ub))));
                        assert(no_red_red(Some(g)));
                    }
                    g
                } else {
                    // black or absent uncle: at most two rotations repair
                    // the subtree for good
                    if lr_red && !ll_red {
                        // inner grandchild: rotate the violation outward
                        l = rotate_left(l);
                    }
                    proof {
                        assert(bst_ok(Some(Box::new(l0))));
                        assert(balanced(Some(Box::new(l0))));
                        assert(balanced(l0.left_child) && balanced(l0.right_child));
                        assert(black_height(l0.left_child) == black_height(l0.right_child));
                        assert(black_height(g0.left_child) == black_height(l0.left_child));
                        if lr_red && !ll_red {
                            let lr0 = *l0.right_child.unwrap();
                            assert(no_red_red(Some(Box::new(lr0))));
                            assert(!is_red(lr0.left_child) && !is_red(lr0.right_child));
                            assert(balanced(Some(Box::new(lr0))));
                            assert(balanced(lr0.left_child) && balanced(lr0.right_child));
                            assert(black_height(l0.right_child) == black_height(lr0.left_child));
                            assert(black_height(lr0.left_child) == black_height(lr0.right_child));
                            assert(l.left_child is Some);
                            let z = *l.left_child.unwrap();
                            assert(z.color == l0.color && z.left_child == l0.left_child
                                && z.right_child == lr0.left_child);
                            assert(no_red_red(l0.left_child));
                            assert(no_red_red(l.left_child));
                            assert(balanced(l.left_child));
                            assert(black_height(l.left_child) == black_height(l0.left_child));
                            assert(l.right_child == lr0.right_child);
                        } else {
                            assert(ll_red && !lr_red);
                        }
                        assert(bst_ok(Some(l)));
                        assert(as_map(Some(l)) == as_map(g0.left_child));
                        assert(is_red(l.left_child));
                        assert(no_red_red(l.left_child));
                        assert(no_red_red(l.right_child) && !is_red(l.right_child));
                        assert(balanced(l.left_child) && balanced(l.right_child));
                        assert(black_height(l.left_child) == black_height(g0.left_child));
                        assert(black_height(l.right_child) == black_height(g0.left_child));
                    }
                    let ghost lrot = *l;
                    l.set_color(RBColor::Black);
                    g.left_child = Some(l);
                    g.set_color(RBColor::Red);
                    proof {
                        let lb = *g.left_child.unwrap();
                        lemma_recolor(lb, lrot);
                        assert(as_map(Some(g.left_child.unwrap())) == as_map(g0.left_child));
                        assert(bst_ok(Some(g.left_child.unwrap())));
                        assert(as_map(Some(g)) == as_map(Some(Box::new(g0))));
                        assert(bst_ok(Some(g)));
                    }
                    let ghost gpre = *g;
                    let r = rotate_right(g);
                    proof {
                        let m = *r.right_child.unwrap();
                        let h = black_height(g0.left_child);
                        assert(black_height(gpre.right_child) == h);
                        assert(black_height(m.left_child) == h && black_height(m.right_child)
                            == h);
                        assert(black_height(Some(r.right_child.unwrap())) == h);
                        assert(black_height(r.left_child) == h);
                        assert(black_height(Some(r)) == h + 1);
                        assert(black_height(Some(Box::new(g0))) == h + 1);
                        assert(balanced(gpre.right_child));
                        assert(balanced(Some(r.right_child.unwrap())));
                        assert(balanced(Some(r)));
                        assert(no_red_red(gpre.right_child));
                        assert(!is_red(m.left_child) && !is_red(m.right_child));
                        assert(no_red_red(Some(r.right_child.unwrap())));
                        assert(no_red_red(Some(r)));
                    }
                    r
                }
            } else {
                g.left_child = Some(l);
                proof {
                    assert(*g == g0);
                    assert(no_red_red(Some(Box::new(l0))));
                    assert(no_red_red(g0.right_child));
                    if g0.color is Black {
                        assert(no_red_red(Some(g)));
                    }
                }
                g
            }
        },
    }
}

/// Repairs a red-red violation between the node's right child and a right
/// grandchild, the mirror image of `fixup_left`.
pub fn fixup_right<V>(g: Box<RBNode<V>>) -> (r: Box<RBNode<V>>)
    requires
        g.right_child is Some,
        bst_ok(Some(g)),
        balanced(Some(g)),
        no_red_red(g.left_child),
        no_red_red(g.right_child.unwrap().left_child),
        no_red_red(g.right_child.unwrap().right_child),
        g.right_child.unwrap().color is Red ==> !(is_red(g.right_child.unwrap().left_child)
            && is_red(g.right_child.unwrap().right_child)),
        g.color is Red ==> no_red_red(g.right_child) && !is_red(g.left_child),
    ensures
        bst_ok(Some(r)),
        as_map(Some(r)) == as_map(Some(g)),
        black_height(Some(r)) == black_height(Some(g)),
        balanced(Some(r)),
        g.color is Black ==> no_red_red(Some(r)),
        g.color is Red ==> r.color is Red && no_red_red(r.left_child) && no_red_red(r.right_child)
            && !(is_red(r.left_child) && is_red(r.right_child)),
{
    let ghost g0 = *g;
    let mut g = g;
    let taken = g.right_child.take();
    match taken {
        None => vstd::pervasive::unreached(),
        Some(mut c) => {
            let ghost c0 = *c;
            let c_red = c.color == RBColor::Red;
            let cl_red = opt_is_red(&c.left_child);
            let cr_red = opt_is_red(&c.right_child);
            if c_red && (cl_red || cr_red) {
                proof {
                    // a red parent of this node would contradict the
                    // red-red freedom required of a red node's child
                    assert(g0.color is Black);
                }
                if opt_is_red(&g.left_child) {
                    // red uncle: push the blackness down from this node
                    c.set_color(RBColor::Black);
                    let taken_u = g.left_child.take();
                    match taken_u {
                        Some(mut u) => {
                            u.set_color(RBColor::Black);
                            g.left_child = Some(u);
                        },
                        None => {
                            proof {
                                assert(false);
                            }
                        },
                    }
                    g.right_child = Some(c);
                    g.set_color(RBColor::Red);
                    proof {
                        let cb = *g.right_child.unwrap();
                        let ub = *g.left_child.unwrap();
                        let corig = *g0.right_child.unwrap();
                        let uorig = *g0.left_child.unwrap();
                        lemma_recolor(cb, corig);
                        lemma_recolor(ub, uorig);
                        assert(bst_ok(g0.left_child) && bst_ok(g0.right_child));
                        assert(as_map(Some(g)) == as_map(Some(Box::new(g0))));
                        assert(bst_ok(Some(g)));
                        assert(black_height(Some(Box::new(cb))) == black_height(
                            g0.right_child,
                        ) + 1);
                        assert(black_height(Some(Box::new(ub))) == black_height(
                            g0.left_child,
                        ) + 1);
                        assert(black_height(Some(g)) == black_height(Some(Box::new(g0))));
                        assert(balanced(g0.left_child) && balanced(g0.right_child));
                        assert(balanced(Some(Box::new(cb))) && balanced(Some(Box::new(ub))));
                        assert(balanced(Some(g)));
                        assert(no_red_red(Some(Box::new(cb))));
                        assert(no_red_red(Some(Box::new(ub))));
                        assert(no_red_red(Some(g)));
                    }
                    g
                } else {
                    // black or absent uncle: at most two rotations repair
                    // the subtree for good
                    if cl_red && !cr_red {
                        // inner grandchild: rotate the violation outward
                        c = rotate_right(c);
                    }
                    proof {
                        assert(bst_ok(Some(Box::new(c0))));
                        assert(balanced(Some(Box::new(c0))));
                        assert(balanced(c0.left_child) && balanced(c0.right_child));
                        assert(black_height(c0.left_child) == black_height(c0.right_child));
                        assert(black_height(g0.right_child) == black_height(c0.left_child));
                        if cl_red && !cr_red {
                            let cl0 = *c0.left_child.unwrap();
                            assert(no_red_red(Some(Box::new(cl0))));
                            assert(!is_red(cl0.left_child) && !is_red(cl0.right_child));
                            assert(balanced(Some(Box::new(cl0))));
                            assert(balanced(cl0.left_child) && balanced(cl0.right_child));
                            assert(black_height(c0.left_child) == black_height(cl0.left_child));
                            assert(black_height(cl0.left_child) == black_height(cl0.right_child));
                            assert(c.right_child is Some);
                            let z = *c.right_child.unwrap();
                            assert(z.color == c0.color && z.right_child == c0.right_child
                                && z.left_child == cl0.right_child);
                            assert(no_red_red(c0.right_child));
                            assert(no_red_red(c.right_child));
                            assert(balanced(c.right_child));
                            assert(black_height(c.right_child) == black_height(c0.right_child));
                            assert(c.left_child == cl0.left_child);
                        } else {
                            assert(cr_red && !cl_red);
                        }
                        assert(bst_ok(Some(c)));
                        assert(as_map(Some(c)) == as_map(g0.right_child));
                        assert(is_red(c.right_child));
                        assert(no_red_red(c.right_child));
                        assert(no_red_red(c.left_child) && !is_red(c.left_child));
                        assert(balanced(c.left_child) && balanced(c.right_child));
                        assert(black_height(c.left_child) == black_height(g0.right_child));
                        assert(black_height(c.right_child) == black_height(g0.right_child));
                    }
                    let ghost crot = *c;
                    c.set_color(RBColor::Black);
                    g.right_child = Some(c);
                    g.set_color(RBColor::Red);
                    proof {
                        let cb = *g.right_child.unwrap();
                        lemma_recolor(cb, crot);
                        assert(as_map(Some(g.right_child.unwrap())) == as_map(g0.right_child));
                        assert(bst_ok(Some(g.right_child.unwrap())));
                        assert(as_map(Some(g)) == as_map(Some(Box::new(g0))));
                        assert(bst_ok(Some(g)));
                    }
                    let ghost gpre = *g;
                    let r = rotate_left(g);
                    proof {
                        let m = *r.left_child.unwrap();
                        let h = black_height(g0.right_child);
                        assert(black_height(gpre.left_child) == h);
                        assert(black_height(m.left_child) == h && black_height(m.right_child)
                            == h);
                        assert(black_height(Some(r.left_child.unwrap())) == h);
                        assert(black_height(r.right_child) == h);
                        assert(black_height(Some(r)) == h + 1);
                        assert(black_height(Some(Box::new(g0))) == h + 1);
                        assert(balanced(gpre.left_child));
                        assert(balanced(Some(r.left_child.unwrap())));
                        assert(balanced(Some(r)));
                        assert(no_red_red(gpre.left_child));
                        assert(!is_red(m.left_child) && !is_red(m.right_child));
                        assert(no_red_red(Some(r.left_child.unwrap())));
                        assert(no_red_red(Some(r)));
                    }
                    r
                }
            } else {
                g.right_child = Some(c);
                proof {
                    assert(*g == g0);
                    assert(no_red_red(Some(Box::new(c0))));
                    assert(no_red_red(g0.left_child));
                    if g0.color is Black {
                        assert(no_red_red(Some(g)));
                    }
                }
                g
            }
        },
    }
}

/// Inserts the pair into the subtree: an equal key has its value replaced
/// in place and returned, a new key gets a fresh red node at the search
/// position, and the fixup pass repairs the colors on the way back up.
///
/// The result has the same black count on every path as the input; the
/// only color violation it may carry is a red top node with one red
/// child, and only when the input's top node was red — its caller's fixup
/// removes it.
pub fn insert_node<V>(node: Box<RBNode<V>>, key: u64, value: V) -> (res: (
    Box<RBNode<V>>,
    Option<V>,
))
    requires
        bst_ok(Some(node)),
        rb_ok(Some(node)),
    ensures
        bst_ok(Some(res.0)),
        as_map(Some(res.0)) == as_map(Some(node)).insert(key, value),
        res.1 == (if as_map(Some(node)).dom().contains(key) {
            Some(as_map(Some(node))[key])
        } else {
            None::<V>
        }),
        black_height(Some(res.0)) == black_height(Some(node)),
        balanced(Some(res.0)),
        node.color is Black ==> no_red_red(Some(res.0)),
        node.color is Red ==> res.0.color is Red && no_red_red(res.0.left_child) && no_red_red(
            res.0.right_child,
        ) && !(is_red(res.0.left_child) && is_red(res.0.right_child)),
    decreases node,
{
    let ghost n0 = *node;
    let mut node = node;
    if key < node.key {
        let taken = node.left_child.take();
        match taken {
            None => {
                node.left_child = Some(Box::new(RBNode::with_color(RBColor::Red, key, value)));
                proof {
                    assert(as_map(n0.left_child) == Map::<u64, V>::empty());
                    assert(as_map(node.left_child) =~= Map::<u64, V>::empty().insert(key, value));
                    assert(forall|k: u64|
                        as_map(n0.right_child).dom().contains(k) ==> k > n0.key);
                    assert(forall|k: u64| as_map(node.left_child).dom().contains(k) ==> k == key);
                    assert(as_map(Some(node)) == as_map(node.left_child).union_prefer_right(
                        as_map(node.right_child),
                    ).insert(n0.key, n0.value));
                    assert(as_map(Some(Box::new(n0))) == as_map(n0.left_child).union_prefer_right(
                        as_map(n0.right_child),
                    ).insert(n0.key, n0.value));
                    assert(as_map(Some(node)) =~= as_map(Some(Box::new(n0))).insert(key, value));
                    assert(!as_map(Some(Box::new(n0))).dom().contains(key));
                    assert(bst_ok(node.left_child) && balanced(node.left_child) && no_red_red(
                        node.left_child,
                    ));
                    assert(bst_ok(Some(node)));
                    assert(black_height(node.left_child) == 0 && black_height(n0.left_child)
                        == 0);
                    assert(black_height(Some(node)) == black_height(Some(Box::new(n0))));
                    assert(balanced(Some(node)));
                    if n0.color is Black {
                        assert(no_red_red(Some(node)));
                    } else {
                        assert(!is_red(n0.right_child));
                    }
                }
                (node, None)
            },
            Some(lchild) => {
                let ghost l0 = *lchild;
                let (l2, prev) = insert_node(lchild, key, value);
                node.left_child = Some(l2);
                proof {
                    assert(bst_ok(n0.left_child) && balanced(n0.left_child) && no_red_red(n0.left_child));
                    assert(forall|k: u64|
                        as_map(node.left_child).dom().contains(k) ==> as_map(
                            n0.left_child,
                        ).dom().contains(k) || k == key);
                    assert(bst_ok(Some(node)));
                    assert(balanced(Some(node)));
                    if n0.color is Red {
                        assert(l0.color is Black && !is_red(n0.right_child));
                        assert(no_red_red(node.left_child));
                    }
                    if l0.color is Black {
                        assert(no_red_red(node.left_child));
                    }
                }
                let ghost npre = *node;
                let r = fixup_left(node);
                proof {
                    assert(as_map(Some(r)) == as_map(Some(Box::new(npre))));
                    assert(as_map(Some(Box::new(npre))) == as_map(npre.left_child)
                        .union_prefer_right(as_map(npre.right_child)).insert(npre.key, npre.value));
                    assert(as_map(npre.left_child) == as_map(n0.left_child).insert(key, value));
                    assert(as_map(Some(Box::new(n0))) == as_map(n0.left_child).union_prefer_right(
                        as_map(n0.right_child),
                    ).insert(n0.key, n0.value));
                    assert(forall|k: u64|
                        as_map(n0.right_child).dom().contains(k) ==> k > n0.key);
                    assert(forall|k: u64| as_map(n0.left_child).dom().contains(k) ==> k < n0.key);
                    assert(as_map(Some(r)) =~= as_map(Some(Box::new(n0))).insert(key, value));
                    assert(as_map(n0.left_child).dom().contains(key) == as_map(
                        Some(Box::new(n0)),
                    ).dom().contains(key));
                    if as_map(n0.left_child).dom().contains(key) {
                        assert(as_map(n0.left_child)[key] == as_map(Some(Box::new(n0)))[key]);
                    }
                    assert(black_height(Some(Box::new(npre))) == black_height(
                        Some(Box::new(n0)),
                    ));
                    assert(black_height(Some(r)) == black_height(Some(Box::new(n0))));
                }
                (r, prev)
            },
        }
    } else if key > node.key {
        let taken = node.right_child.take();
        match taken {
            None => {
                node.right_child = Some(Box::new(RBNode::with_color(RBColor::Red, key, value)));
                proof {
                    assert(as_map(n0.right_child) == Map::<u64, V>::empty());
                    assert(as_map(node.right_child) =~= Map::<u64, V>::empty().insert(key, value));
                    assert(forall|k: u64| as_map(n0.left_child).dom().contains(k) ==> k < n0.key);
                    assert(forall|k: u64| as_map(node.right_child).dom().contains(k) ==> k == key);
                    assert(as_map(Some(node)) == as_map(node.left_child).union_prefer_right(
                        as_map(node.right_child),
                    ).insert(n0.key, n0.value));
                    assert(as_map(Some(Box::new(n0))) == as_map(n0.left_child).union_prefer_right(
                        as_map(n0.right_child),
                    ).insert(n0.key, n0.value));
                    assert(as_map(Some(node)) =~= as_map(Some(Box::new(n0))).insert(key, value));
                    assert(!as_map(Some(Box::new(n0))).dom().contains(key));
                    assert(bst_ok(node.right_child) && balanced(node.right_child) && no_red_red(
                        node.right_child,
                    ));
                    assert(bst_ok(Some(node)));
                    assert(black_height(node.right_child) == 0 && black_height(n0.right_child)
                        == 0);
                    assert(black_height(Some(node)) == black_height(Some(Box::new(n0))));
                    assert(balanced(Some(node)));
                    if n0.color is Black {
                        assert(no_red_red(Some(node)));
                    } else {
                        assert(!is_red(n0.left_child));
                    }
                }
                (node, None)
            },
            Some(rchild) => {
                let ghost r0 = *rchild;
                let (r2, prev) = insert_node(rchild, key, value);
                node.right_child = Some(r2);
                proof {
                    assert(bst_ok(n0.right_child) && balanced(n0.right_child) && no_red_red(
                        n0.right_child,
                    ));
                    assert(forall|k: u64|
                        as_map(node.right_child).dom().contains(k) ==> as_map(
                            n0.right_child,
                        ).dom().contains(k) || k == key);
                    assert(bst_ok(Some(node)));
                    assert(balanced(Some(node)));
                    if n0.color is Red {
                        assert(r0.color is Black && !is_red(n0.left_child));
                        assert(no_red_red(node.right_child));
                    }
                    if r0.color is Black {
                        assert(no_red_red(node.right_child));
                    }
                }
                let ghost npre = *node;
                let r = fixup_right(node);
                proof {
                    assert(as_map(Some(r)) == as_map(Some(Box::new(npre))));
                    assert(as_map(Some(Box::new(npre))) == as_map(npre.left_child)
                        .union_prefer_right(as_map(npre.right_child)).insert(npre.key, npre.value));
                    assert(as_map(npre.right_child) == as_map(n0.right_child).insert(key, value));
                    assert(as_map(Some(Box::new(n0))) == as_map(n0.left_child).union_prefer_right(
                        as_map(n0.right_child),
                    ).insert(n0.key, n0.value));
                    assert(forall|k: u64|
                        as_map(n0.right_child).dom().contains(k) ==> k > n0.key);
                    assert(forall|k: u64| as_map(n0.left_child).dom().contains(k) ==> k < n0.key);
                    assert(as_map(Some(r)) =~= as_map(Some(Box::new(n0))).insert(key, value));
                    assert(as_map(n0.right_child).dom().contains(key) == as_map(
                        Some(Box::new(n0)),
                    ).dom().contains(key));
                    if as_map(n0.right_child).dom().contains(key) {
                        assert(as_map(n0.right_child)[key] == as_map(Some(Box::new(n0)))[key]);
                    }
                    assert(black_height(Some(Box::new(npre))) == black_height(
                        Some(Box::new(n0)),
                    ));
                    assert(black_height(Some(r)) == black_height(Some(Box::new(n0))));
                }
                (r, prev)
            },
        }
    } else {
        let mut prev_value = value;
        core::mem::swap(&mut node.value, &mut prev_value);
        proof {
            assert(key == n0.key);
            assert(as_map(Some(node)) =~= as_map(Some(Box::new(n0))).insert(key, node.value));
            assert(as_map(Some(Box::new(n0))).dom().contains(key));
            assert(as_map(Some(Box::new(n0)))[key] == n0.value);
            assert(bst_ok(Some(node)));
            assert(black_height(Some(node)) == black_height(Some(Box::new(n0))));
            assert(balanced(Some(node)));
            assert(no_red_red(Some(node)));
        }
        (node, Some(prev_value))
    }
}

/// Forces the color of the topmost node to black.  Demoting a red root
/// can violate nothing: a root has no parent, and every path gains the
/// same single black node.
pub fn ensure_root_black<V>(root: &mut OptNode<V>)
    requires
        old(root).is_some(),
    ensures
        final(root).is_some(),
        ({
            let a = old(root).unwrap();
            let b = final(root).unwrap();
            &&& b.color is Black
            &&& b.key == a.key
            &&& b.value == a.value
            &&& b.left_child == a.left_child
            &&& b.right_child == a.right_child
        }),
{
    let taken = root.take();
    match taken {
        Some(mut n) => {
            n.set_color(RBColor::Black);
            *root = Some(n);
        },
        None => {
            proof {
                assert(false);
            }
        },
    }
}

/// Inserts into an optional root: an empty tree gets a fresh black root;
/// otherwise the recursive insertion runs and the root is forced back to
/// black, which completes the repair of the red-black invariants.
pub fn insert_n<V>(root: &mut OptNode<V>, key: u64, value: V) -> (prev: Option<V>)
    requires
        bst_ok(*old(root)),
        rb_ok(*old(root)),
        !is_red(*old(root)),
    ensures
        bst_ok(*final(root)),
        rb_ok(*final(root)),
        !is_red(*final(root)),
        as_map(*final(root)) == as_map(*old(root)).insert(key, value),
        prev == (if as_map(*old(root)).dom().contains(key) {
            Some(as_map(*old(root))[key])
        } else {
            None::<V>
        }),
{
    let ghost r0 = *root;
    let taken = root.take();
    match taken {
        None => {
            *root = Some(Box::new(RBNode::new(key, value)));
            ensure_root_black(root);
            proof {
                assert(as_map(*root) =~= as_map(r0).insert(key, value));
                assert(bst_ok(*root) && balanced(*root) && no_red_red(*root));
            }
            None
        },
        Some(n) => {
            let ghost n0 = *n;
            let (n2, prev) = insert_node(n, key, value);
            let ghost n2g = *n2;
            *root = Some(n2);
            ensure_root_black(root);
            proof {
                let b = *root.unwrap();
                lemma_recolor(b, n2g);
                assert(as_map(*root) == as_map(Some(Box::new(n2g))));
                assert(as_map(*root) == as_map(r0).insert(key, value));
                assert(bst_ok(*root));
                assert(black_height(b.left_child) == black_height(b.right_child));
                assert(balanced(*root));
                assert(no_red_red(b.left_child) && no_red_red(b.right_child));
                assert(no_red_red(*root));
                assert(!is_red(*root));
            }
            prev
        },
    }
}

} // verus!

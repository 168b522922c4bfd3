use rbtree::RBColor;
use rbtree::RBNode;
use rbtree::RBTree;

fn subtree_is_red<V>(t: &Option<Box<RBNode<V>>>) -> bool {
    match t {
        Some(n) => n.color == RBColor::Red,
        None => false,
    }
}

fn no_red_red_holds<V>(t: &Option<Box<RBNode<V>>>) -> bool {
    match t {
        None => true,
        Some(n) => {
            (n.color == RBColor::Black
                || (!subtree_is_red(&n.left_child) && !subtree_is_red(&n.right_child)))
                && no_red_red_holds(&n.left_child)
                && no_red_red_holds(&n.right_child)
        }
    }
}

fn black_height_of<V>(t: &Option<Box<RBNode<V>>>) -> Option<usize> {
    match t {
        None => Some(0),
        Some(n) => {
            let l = black_height_of(&n.left_child)?;
            let r = black_height_of(&n.right_child)?;
            if l != r {
                return None;
            }
            Some(l + if n.color == RBColor::Black { 1 } else { 0 })
        }
    }
}

#[test]
fn in_order_is_strictly_increasing() {
    let mut tree = RBTree::<u64>::new();
    for k in [41, 7, 99, 3, 58, 7, 1000, 0, 12, 77, 41, 5] {
        tree.insert(k, k * 10);
    }
    let keys = tree.in_order_keys();
    for w in keys.windows(2) {
        assert!(w[0] < w[1]);
    }
    assert_eq!(vec![0, 3, 5, 7, 12, 41, 58, 77, 99, 1000], keys);
}

#[test]
fn insert_changes_count_as_promised() {
    let mut tree = RBTree::<u64>::new();
    assert_eq!(0, tree.in_order_keys().len());
    assert_eq!(None, tree.insert(10, 1));
    assert_eq!(1, tree.in_order_keys().len());
    assert_eq!(None, tree.insert(20, 2));
    assert_eq!(2, tree.in_order_keys().len());
    assert_eq!(Some(1), tree.insert(10, 3));
    assert_eq!(2, tree.in_order_keys().len());
}

#[test]
fn invariants_hold_after_every_insert() {
    let mut tree = RBTree::<u64>::new();
    let keys = [50, 25, 75, 12, 37, 62, 87, 6, 18, 31, 43, 1, 2, 3, 4, 5, 100, 99, 98, 97];
    for (i, k) in keys.iter().enumerate() {
        tree.insert(*k, i as u64);
        assert!(!subtree_is_red(&tree.root));
        assert!(no_red_red_holds(&tree.root));
        assert!(black_height_of(&tree.root).is_some());
    }
}

#[test]
fn height_stays_logarithmic() {
    // ascending insertion order degrades a plain binary search tree to a
    // chain; the rebalancing keeps the height within 2*log2(n + 1)
    let mut tree = RBTree::<u64>::new();
    for k in 1..=100 {
        tree.insert(k, k);
    }
    assert_eq!(100, tree.in_order_keys().len());
    // 2 * log2(101) is a little over 13
    assert!(tree.height() <= 13);
}

#[test]
fn insert_then_search_round_trip() {
    let mut tree = RBTree::<String>::new();
    for k in [9, 4, 17, 2, 80] {
        tree.insert(k, format!("v{}", k));
        assert_eq!(Some(&mut format!("v{}", k)), tree.get_mut(k));
    }
    for k in [9, 4, 17, 2, 80] {
        assert_eq!(Some(&mut format!("v{}", k)), tree.get_mut(k));
    }
}

#[test]
fn write_through_returned_reference() {
    let mut tree = RBTree::<u64>::new();
    tree.insert(5, 50);
    tree.insert(8, 80);
    if let Some(v) = tree.get_mut(5) {
        *v = 51;
    } else {
        panic!("key must be present");
    }
    assert_eq!(Some(&mut 51), tree.get_mut(5));
    assert_eq!(Some(&mut 80), tree.get_mut(8));
    assert_eq!(vec![5, 8], tree.in_order_keys());
}

#[test]
fn empty_tree_has_nothing() {
    let mut tree = RBTree::<u64>::new();
    assert_eq!(None, tree.get_mut(0));
    assert_eq!(0, tree.height());
    assert!(tree.in_order_keys().is_empty());
}

#[test]
fn extreme_keys() {
    let mut tree = RBTree::<u64>::new();
    tree.insert(u64::MAX, 1);
    tree.insert(0, 2);
    tree.insert(u64::MAX / 2, 3);
    assert_eq!(vec![0, u64::MAX / 2, u64::MAX], tree.in_order_keys());
    assert_eq!(Some(&mut 1), tree.get_mut(u64::MAX));
    assert_eq!(Some(&mut 2), tree.get_mut(0));
}

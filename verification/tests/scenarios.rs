use rbtree::RBColor;
use rbtree::RBNode;
use rbtree::RBTree;

fn node_is_red<V>(t: &Option<Box<RBNode<V>>>) -> bool {
    match t {
        Some(n) => n.color == RBColor::Red,
        None => false,
    }
}

fn check_no_red_red<V>(t: &Option<Box<RBNode<V>>>) -> bool {
    match t {
        None => true,
        Some(n) => {
            (n.color == RBColor::Black || (!node_is_red(&n.left_child) && !node_is_red(&n.right_child)))
                && check_no_red_red(&n.left_child)
                && check_no_red_red(&n.right_child)
        }
    }
}

// the number of black nodes on every path to an absent child, or None if
// two paths disagree
fn check_black_height<V>(t: &Option<Box<RBNode<V>>>) -> Option<usize> {
    match t {
        None => Some(0),
        Some(n) => {
            let l = check_black_height(&n.left_child)?;
            let r = check_black_height(&n.right_child)?;
            if l != r {
                return None;
            }
            Some(l + if n.color == RBColor::Black { 1 } else { 0 })
        }
    }
}

fn check_bst<V>(t: &Option<Box<RBNode<V>>>, lo: Option<u64>, hi: Option<u64>) -> bool {
    match t {
        None => true,
        Some(n) => {
            lo.map_or(true, |b| n.key > b)
                && hi.map_or(true, |b| n.key < b)
                && check_bst(&n.left_child, lo, Some(n.key))
                && check_bst(&n.right_child, Some(n.key), hi)
        }
    }
}

fn all_invariants_hold<V>(t: &RBTree<V>) -> bool {
    !node_is_red(&t.root)
        && check_no_red_red(&t.root)
        && check_black_height(&t.root).is_some()
        && check_bst(&t.root, None, None)
}

#[test]
fn insert_into_empty_then_search() {
    let mut tree = RBTree::<String>::new();
    assert_eq!(None, tree.insert(123, "123".to_string()));
    assert_eq!(Some(&mut "123".to_string()), tree.get_mut(123));
    assert_eq!(Some("123".to_string()), tree.insert(123, "1234".to_string()));
}

#[test]
fn replacement_keeps_count() {
    let mut tree = RBTree::<String>::new();
    assert_eq!(None, tree.insert(123, "123".to_string()));
    assert_eq!(Some("123".to_string()), tree.insert(123, "1234".to_string()));
    assert_eq!(1, tree.in_order_keys().len());
    assert_eq!(Some(&mut "1234".to_string()), tree.get_mut(123));
}

#[test]
fn three_keys_in_order_root_black() {
    let mut tree = RBTree::<String>::new();
    assert_eq!(None, tree.insert(123, "1234".to_string()));
    assert_eq!(None, tree.insert(120, "120".to_string()));
    assert_eq!(None, tree.insert(126, "126".to_string()));
    assert_eq!(vec![120, 123, 126], tree.in_order_keys());
    assert!(!node_is_red(&tree.root));
    assert!(check_no_red_red(&tree.root));
}

#[test]
fn mixed_sequence_with_duplicate() {
    let mut tree = RBTree::<()>::new();
    for k in [8, 3, 5, 23, 6, 12, 3] {
        tree.insert(k, ());
    }
    assert_eq!(vec![3, 5, 6, 8, 12, 23], tree.in_order_keys());
    assert!(tree.height() <= 5);
    assert!(all_invariants_hold(&tree));
}

#[test]
fn search_for_absent_key() {
    let mut tree = RBTree::<String>::new();
    tree.insert(123, "123".to_string());
    tree.insert(120, "120".to_string());
    assert_eq!(None, tree.get_mut(999));
}

#[test]
fn demo_sequence() {
    let mut tree = RBTree::<String>::new();
    assert_eq!(None, tree.get_mut(123));
    assert_eq!(None, tree.insert(123, "123".to_string()));
    assert_eq!(Some(&mut "123".to_string()), tree.get_mut(123));
    assert_eq!(Some("123".to_string()), tree.insert(123, "1234".to_string()));
    assert_eq!(Some(&mut "1234".to_string()), tree.get_mut(123));
    assert_eq!(None, tree.insert(120, "120".to_string()));
    assert_eq!(None, tree.insert(126, "126".to_string()));
    assert!(all_invariants_hold(&tree));
}

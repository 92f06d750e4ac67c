use binary_search_tree::bst::{AttachError, BstArena, BstNode};

/// Builds 15 at the root; 6 and 18 under it; 3 and 7 under 6; 17 left of 18.
/// Returns the arena and the handles in that order.
fn sample_tree() -> (BstArena, [usize; 6]) {
    let mut t = BstArena::new();
    let n15 = BstNode::new_bst_nodelink(&mut t, 15);
    let n6 = BstNode::add_left_child(&mut t, n15, 6).unwrap();
    let n18 = BstNode::add_right_child(&mut t, n15, 18).unwrap();
    let n3 = BstNode::add_left_child(&mut t, n6, 3).unwrap();
    let n7 = BstNode::add_right_child(&mut t, n6, 7).unwrap();
    let n17 = BstNode::add_left_child(&mut t, n18, 17).unwrap();
    (t, [n15, n6, n18, n3, n7, n17])
}

fn key(t: &BstArena, i: usize) -> Option<i32> {
    t.node(i).key
}

#[test]
fn scenario_from_description() {
    let (t, [n15, _n6, n18, _n3, n7, _n17]) = sample_tree();
    let found = BstNode::tree_search(&t, n15, 7).unwrap();
    assert_eq!(key(&t, found), Some(7));
    assert_eq!(BstNode::tree_search(&t, n15, 100), None);
    assert_eq!(key(&t, BstNode::minimum(&t, n15)), Some(3));
    assert_eq!(key(&t, BstNode::maximum(&t, n15)), Some(18));
    let succ = BstNode::tree_successor(&t, n15).unwrap();
    assert_eq!(key(&t, succ), Some(17));
    assert_eq!(BstNode::tree_successor(&t, n18), None);
    let root = BstNode::get_root(&t, n7);
    assert_eq!(key(&t, root), Some(15));
    assert_eq!(root, n15);
}

#[test]
fn new_root_has_no_links() {
    let mut t = BstArena::new();
    assert_eq!(t.node_count(), 0);
    let r = BstNode::new_bst_nodelink(&mut t, 42);
    assert_eq!(r, 0);
    assert_eq!(t.node_count(), 1);
    let n = t.node(r);
    assert_eq!(n.key, Some(42));
    assert_eq!(n.parent, None);
    assert_eq!(n.left, None);
    assert_eq!(n.right, None);
}

#[test]
fn attach_sets_both_links() {
    let (t, [n15, n6, n18, n3, n7, n17]) = sample_tree();
    assert_eq!(t.node_count(), 6);
    assert_eq!(t.node(n15).left, Some(n6));
    assert_eq!(t.node(n15).right, Some(n18));
    assert_eq!(t.node(n6).parent, Some(n15));
    assert_eq!(t.node(n18).parent, Some(n15));
    assert_eq!(t.node(n3).parent, Some(n6));
    assert_eq!(t.node(n7).parent, Some(n6));
    assert_eq!(t.node(n17).parent, Some(n18));
    assert_eq!(t.node(n18).right, None);
}

#[test]
fn attach_to_occupied_slot_is_refused() {
    let (mut t, [n15, n6, n18, ..]) = sample_tree();
    assert_eq!(BstNode::add_left_child(&mut t, n15, 5), Err(AttachError::SlotOccupied));
    assert_eq!(BstNode::add_right_child(&mut t, n15, 20), Err(AttachError::SlotOccupied));
    assert_eq!(t.node_count(), 6);
    assert_eq!(t.node(n15).left, Some(n6));
    assert_eq!(t.node(n15).right, Some(n18));
    let n20 = BstNode::add_right_child(&mut t, n18, 20).unwrap();
    assert_eq!(n20, 6);
    assert_eq!(t.node(n18).right, Some(n20));
}

#[test]
fn search_finds_every_key_present() {
    let (t, handles) = sample_tree();
    for h in handles {
        let k = key(&t, h).unwrap();
        let found = BstNode::tree_search(&t, handles[0], k).unwrap();
        assert_eq!(found, h);
        assert_eq!(key(&t, found), Some(k));
    }
}

#[test]
fn search_misses_absent_keys_without_panicking() {
    let (t, [n15, n6, ..]) = sample_tree();
    for k in [i32::MIN, 0, 4, 5, 8, 16, 19, i32::MAX] {
        assert_eq!(BstNode::tree_search(&t, n15, k), None);
    }
    // a search confined to a subtree does not see keys outside it
    assert_eq!(BstNode::tree_search(&t, n6, 18), None);
}

#[test]
fn minimum_and_maximum_bound_every_key() {
    let (t, handles) = sample_tree();
    let lo = key(&t, BstNode::minimum(&t, handles[0])).unwrap();
    let hi = key(&t, BstNode::maximum(&t, handles[0])).unwrap();
    for h in handles {
        let k = key(&t, h).unwrap();
        assert!(lo <= k && k <= hi);
    }
}

#[test]
fn minimum_and_maximum_of_subtrees_and_leaves() {
    let (t, [_n15, n6, n18, n3, _n7, n17]) = sample_tree();
    assert_eq!(BstNode::minimum(&t, n6), n3);
    assert_eq!(key(&t, BstNode::maximum(&t, n6)), Some(7));
    assert_eq!(BstNode::minimum(&t, n18), n17);
    assert_eq!(BstNode::maximum(&t, n18), n18);
    assert_eq!(BstNode::minimum(&t, n3), n3);
    assert_eq!(BstNode::maximum(&t, n3), n3);
}

#[test]
fn get_root_is_idempotent() {
    let (t, handles) = sample_tree();
    for h in handles {
        let r = BstNode::get_root(&t, h);
        assert_eq!(r, handles[0]);
        assert_eq!(BstNode::get_root(&t, r), r);
    }
}

#[test]
fn get_root_keeps_trees_apart() {
    let (mut t, [n15, ..]) = sample_tree();
    let other = BstNode::new_bst_nodelink(&mut t, 100);
    let child = BstNode::add_left_child(&mut t, other, 50).unwrap();
    assert_eq!(BstNode::get_root(&t, child), other);
    assert_eq!(BstNode::get_root(&t, other), other);
    assert_eq!(BstNode::tree_search(&t, n15, 50), None);
    assert_eq!(BstNode::tree_successor(&t, child), Some(other));
    assert_eq!(BstNode::tree_successor(&t, other), None);
}

#[test]
fn successor_walks_keys_in_order() {
    let (t, [n15, n6, n18, n3, n7, n17]) = sample_tree();
    assert_eq!(BstNode::tree_successor(&t, n3), Some(n6));
    assert_eq!(BstNode::tree_successor(&t, n6), Some(n7));
    assert_eq!(BstNode::tree_successor(&t, n7), Some(n15));
    assert_eq!(BstNode::tree_successor(&t, n15), Some(n17));
    assert_eq!(BstNode::tree_successor(&t, n17), Some(n18));
    assert_eq!(BstNode::tree_successor(&t, n18), None);
}

#[test]
fn successor_is_next_larger_key() {
    let (t, handles) = sample_tree();
    let keys: Vec<i32> = handles.iter().map(|&h| key(&t, h).unwrap()).collect();
    for h in handles {
        let k = key(&t, h).unwrap();
        let next = keys.iter().copied().filter(|&x| x > k).min();
        let succ = BstNode::tree_successor(&t, h).map(|s| key(&t, s).unwrap());
        assert_eq!(succ, next);
    }
}

#[test]
fn single_node_tree() {
    let mut t = BstArena::new();
    let r = BstNode::new_bst_nodelink(&mut t, -3);
    assert_eq!(BstNode::minimum(&t, r), r);
    assert_eq!(BstNode::maximum(&t, r), r);
    assert_eq!(BstNode::get_root(&t, r), r);
    assert_eq!(BstNode::tree_successor(&t, r), None);
    assert_eq!(BstNode::tree_search(&t, r, -3), Some(r));
    assert_eq!(BstNode::tree_search(&t, r, 3), None);
}

#[test]
fn node_match_compares_keys_not_identity() {
    let (t, [n15, n6, ..]) = sample_tree();
    let mut other = BstArena::new();
    let lone15 = BstNode::new_bst_nodelink(&mut other, 15);
    let a = t.node(n15);
    let b = other.node(lone15);
    assert!(BstNode::is_node_match(&a, &b));
    assert!(!BstNode::is_node_match(&a, &t.node(n6)));
    let keyless = BstNode { key: None, parent: None, left: None, right: None };
    assert!(BstNode::is_node_match(&keyless, &keyless));
    assert!(!BstNode::is_node_match(&keyless, &a));
}

#[test]
fn optional_node_match() {
    let (t, [n15, n6, ..]) = sample_tree();
    let a = t.node(n15);
    let copy = a.get_bst_nodelink_copy();
    assert!(BstNode::is_node_match_option(None, None));
    assert!(BstNode::is_node_match_option(Some(a), Some(copy)));
    assert!(!BstNode::is_node_match_option(Some(a), None));
    assert!(!BstNode::is_node_match_option(None, Some(a)));
    assert!(!BstNode::is_node_match_option(Some(a), Some(t.node(n6))));
}

#[test]
fn copy_keeps_links() {
    let (t, [_n15, n6, ..]) = sample_tree();
    let a = t.node(n6);
    let c = a.get_bst_nodelink_copy();
    assert_eq!(c.key, a.key);
    assert_eq!(c.parent, a.parent);
    assert_eq!(c.left, a.left);
    assert_eq!(c.right, a.right);
}

#[test]
fn extreme_keys() {
    let mut t = BstArena::new();
    let r = BstNode::new_bst_nodelink(&mut t, 0);
    let lo = BstNode::add_left_child(&mut t, r, i32::MIN).unwrap();
    let hi = BstNode::add_right_child(&mut t, r, i32::MAX).unwrap();
    assert_eq!(BstNode::minimum(&t, r), lo);
    assert_eq!(BstNode::maximum(&t, r), hi);
    assert_eq!(BstNode::tree_successor(&t, lo), Some(r));
    assert_eq!(BstNode::tree_successor(&t, hi), None);
    assert_eq!(BstNode::tree_search(&t, r, i32::MAX), Some(hi));
}

#[test]
fn built_tree_keeps_search_order() {
    let (t, handles) = sample_tree();
    for h in handles {
        let n = t.node(h);
        let k = n.key.unwrap();
        if let Some(l) = n.left {
            assert!(key(&t, BstNode::maximum(&t, l)).unwrap() < k);
        }
        if let Some(r) = n.right {
            assert!(key(&t, BstNode::minimum(&t, r)).unwrap() > k);
        }
    }
}

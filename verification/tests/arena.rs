use leafy::MultiTree;
use leafy::TreeView;

#[test]
fn arena_reuse_no_growth() {
    let mut t = MultiTree::new();
    let a = t.new_node();
    let b = t.new_node();
    let c = t.new_node();
    let d = t.new_node();
    assert_eq!(t.len(), 4);

    // release three leaves, then allocate three: the pool must not grow,
    // and the reused handles are exactly the released ones (stack order),
    // disjoint from the still-live handle
    t.delete(b);
    t.delete(c);
    t.delete(d);
    assert_eq!(t.len(), 4);
    let r1 = t.new_node();
    let r2 = t.new_node();
    let r3 = t.new_node();
    assert_eq!(t.len(), 4);
    assert_eq!(r1, d);
    assert_eq!(r2, c);
    assert_eq!(r3, b);
    assert!(r1 != a && r2 != a && r3 != a);
}

#[test]
fn cascade_delete_releases_descendants() {
    let mut t = MultiTree::new();
    let root = t.new_node();
    t.new_left(root);
    let x = t.node(root).left().unwrap();
    t.new_left(x);
    t.new_right(x);
    let y = t.node(x).left().unwrap();
    let z = t.node(x).right().unwrap();
    assert_eq!(t.len(), 4);

    t.delete(x);
    // the former parent's slot is cleared at once
    assert!(t.node(root).left().is_none());
    // the node and (lazily) both descendants are reclaimed: the next three
    // allocations reuse their slots without any growth
    let r1 = t.new_node();
    let r2 = t.new_node();
    let r3 = t.new_node();
    assert_eq!(t.len(), 4);
    assert_eq!(r1, x);
    assert_eq!(r2, y);
    assert_eq!(r3, z);
}

#[test]
fn new_left_replaces_and_reuses_slot() {
    let mut t = MultiTree::new();
    let root = t.new_node();
    t.new_left(root);
    let first = t.node(root).left().unwrap();
    // overwriting the occupied slot frees the old subtree, and the free
    // list hands the same slot straight back
    t.new_left(root);
    let second = t.node(root).left().unwrap();
    assert_eq!(first, second);
    assert_eq!(t.len(), 2);
    assert_eq!(t.node(second).parent(), Some(root));
}

#[test]
fn set_left_moves_subtree_and_fixes_parent() {
    let mut t = MultiTree::new();
    let a = t.new_node();
    let b = t.new_node();
    t.set_left(a, Some(b));
    assert_eq!(t.node(a).left(), Some(b));
    assert_eq!(t.node(b).parent(), Some(a));
    t.set_left(a, None);
    assert!(t.node(a).left().is_none());
}

#[test]
fn set_right_frees_old_occupant() {
    let mut t = MultiTree::new();
    let a = t.new_node();
    let b = t.new_node();
    let c = t.new_node();
    t.set_right(a, Some(b));
    t.set_right(a, Some(c));
    assert_eq!(t.node(a).right(), Some(c));
    // b went to the free list: the next allocation reuses it
    let r = t.new_node();
    assert_eq!(r, b);
    assert_eq!(t.len(), 3);
}

#[test]
fn view_counts_chains() {
    let mut t = MultiTree::new();
    let root = t.new_node();
    t.new_left(root);
    let c1 = t.node(root).left().unwrap();
    t.new_left(c1);
    let c2 = t.node(c1).left().unwrap();
    assert_eq!(TreeView::new(&t, root).count_left(), Some(2));
    assert_eq!(TreeView::new(&t, root).count_right(), Some(0));
    assert_eq!(TreeView::new(&t, root).count_left_only(), Some(2));
    assert_eq!(TreeView::new(&t, c2).count_left(), Some(0));
    // a right child interrupts a pure left-only run
    t.new_right(c1);
    assert_eq!(TreeView::new(&t, root).count_left_only(), None);
    assert_eq!(TreeView::new(&t, root).count_left(), Some(2));
}

#[test]
fn view_moves_and_at() {
    let mut t = MultiTree::new();
    let root = t.new_node();
    t.new_left(root);
    t.new_right(root);
    let l = t.node(root).left().unwrap();
    let r = t.node(root).right().unwrap();

    let mut v = TreeView::new(&t, root);
    assert!(v.move_left());
    assert_eq!(v.node().parent(), Some(root));
    assert!(!v.move_left());
    assert!(v.move_up());
    assert!(v.move_right());
    assert!(!v.move_right());
    assert!(!v.move_left());

    let w = TreeView::new(&t, root).at(l);
    assert!(w.count_right_only() == Some(0));
    let u = TreeView::new(&t, root).at(r);
    assert!(u.count_left_only() == Some(0));
}

use leafy::TreeCursor;

#[test]
fn fresh_cursor_is_rooted_single_node() {
    let c = TreeCursor::new();
    assert_eq!(c.root_stack().len(), 1);
    assert!(c.at_root());
    assert_eq!(c.cursor(), c.root_stack()[0]);
    let t = c.unrooted();
    assert_eq!(t.len(), 1);
    assert!(t.node(c.cursor()).left().is_none());
    assert!(t.node(c.cursor()).right().is_none());
}

#[test]
fn moves_follow_edges() {
    let mut c = TreeCursor::new();
    assert!(!c.move_left());
    assert!(!c.move_right());
    c.new_left();
    c.new_right();
    assert!(c.move_left());
    assert!(!c.at_root());
    assert!(c.move_up());
    assert!(c.at_root());
    assert!(c.move_right());
    assert!(c.move_up());
    assert!(c.at_root());
}

#[test]
fn move_up_blocked_at_pushed_root() {
    let mut c = TreeCursor::new();
    c.new_left();
    c.move_left();
    c.new_left();
    c.move_left();
    // two levels below the outer root; make this position a boundary
    c.move_up();
    c.push_root();
    assert!(c.at_root());
    // repeated attempts never move past the boundary
    assert!(!c.move_up());
    assert!(!c.move_up());
    assert!(!c.move_up());
    // below the boundary, up-moves stop exactly at it
    assert!(c.move_left());
    assert!(c.move_up());
    assert!(!c.move_up());
    // popping the boundary opens the way up again
    assert!(c.pop_root().is_some());
    assert!(c.move_up());
    assert!(c.at_root());
}

#[test]
fn pop_root_keeps_outermost_boundary() {
    let mut c = TreeCursor::new();
    assert!(c.pop_root().is_none());
    c.push_root();
    assert_eq!(c.root_stack().len(), 2);
    assert!(c.pop_root().is_some());
    assert_eq!(c.root_stack().len(), 1);
    assert!(c.pop_root().is_none());
    assert_eq!(c.root_stack().len(), 1);
}

#[test]
fn delete_moves_to_parent() {
    let mut c = TreeCursor::new();
    // deleting the root (no parent in scope) fails and changes nothing
    assert!(!c.delete());
    c.new_left();
    c.move_left();
    c.new_left();
    c.new_right();
    assert!(c.delete());
    assert!(c.at_root());
    assert!(c.unrooted().node(c.cursor()).left().is_none());
}

#[test]
fn delete_blocked_at_boundary() {
    let mut c = TreeCursor::new();
    c.new_left();
    c.move_left();
    c.push_root();
    // the position is the innermost boundary: no parent in scope
    assert!(!c.delete());
    assert!(c.pop_root().is_some());
    assert!(c.delete());
}

#[test]
fn into_unrooted_keeps_tree() {
    let mut c = TreeCursor::new();
    c.new_left();
    let root = c.root_stack()[0];
    let t = c.into_unrooted();
    assert!(t.node(root).left().is_some());
}

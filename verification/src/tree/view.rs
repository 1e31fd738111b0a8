//! A read-only view into an arena: a borrowed tree plus a position,
//! convenient for walking a tree without touching it.

use vstd::prelude::*;

verus! {

use crate::tree::MultiTree;
use crate::tree::Node;
use crate::tree::NodeId;
use crate::tree::TreeModel;
use crate::tree::tree_model_wf;

/// Descents along left edges until a node without a left child; `None`
/// when the walk runs out of fuel (which a tree inside an arena of that
/// many slots never does).
pub open spec fn chain_count_left(tm: TreeModel, at: int, fuel: nat) -> Option<nat>
    decreases fuel,
{
    match tm.nodes[at].left {
        Some(l) => if fuel == 0 {
            None
        } else {
            match chain_count_left(tm, l, (fuel - 1) as nat) {
                Some(n) => Some(n + 1),
                None => None,
            }
        },
        None => Some(0),
    }
}

/// Descents along right edges, as `chain_count_left`.
pub open spec fn chain_count_right(tm: TreeModel, at: int, fuel: nat) -> Option<nat>
    decreases fuel,
{
    match tm.nodes[at].right {
        Some(r) => if fuel == 0 {
            None
        } else {
            match chain_count_right(tm, r, (fuel - 1) as nat) {
                Some(n) => Some(n + 1),
                None => None,
            }
        },
        None => Some(0),
    }
}

/// The unary count a left-only chain encodes: the number of left descents
/// down to a node with no left child, provided no node on the way has a
/// right child — `None` for an interrupted run (or a walk out of fuel).
pub open spec fn chain_count_left_only(tm: TreeModel, at: int, fuel: nat) -> Option<nat>
    decreases fuel,
{
    if tm.nodes[at].right is Some {
        None
    } else {
        match tm.nodes[at].left {
            Some(l) => if fuel == 0 {
                None
            } else {
                match chain_count_left_only(tm, l, (fuel - 1) as nat) {
                    Some(n) => Some(n + 1),
                    None => None,
                }
            },
            None => Some(0),
        }
    }
}

/// The mirror image of `chain_count_left_only`.
pub open spec fn chain_count_right_only(tm: TreeModel, at: int, fuel: nat) -> Option<nat>
    decreases fuel,
{
    if tm.nodes[at].left is Some {
        None
    } else {
        match tm.nodes[at].right {
            Some(r) => if fuel == 0 {
                None
            } else {
                match chain_count_right_only(tm, r, (fuel - 1) as nat) {
                    Some(n) => Some(n + 1),
                    None => None,
                }
            },
            None => Some(0),
        }
    }
}

/// A read-only position over a borrowed arena.
#[derive(Clone, Debug)]
pub struct TreeView<'a> {
    tree: &'a MultiTree,
    cursor: NodeId,
}

impl<'a> TreeView<'a> {
    /// The borrowed arena, as a value.
    pub closed spec fn tree_model(self) -> TreeModel {
        self.tree@
    }

    /// The current position.
    pub closed spec fn pos(self) -> int {
        self.cursor@
    }

    /// The arena is well formed and the position addresses a slot.
    pub open spec fn wf(self) -> bool {
        &&& tree_model_wf(self.tree_model())
        &&& 0 <= self.pos() < self.tree_model().nodes.len()
    }

    /// A view of `tree` positioned at `cursor`.
    pub fn new(tree: &'a MultiTree, cursor: NodeId) -> (v: Self)
        requires
            tree.wf(),
            0 <= cursor@ < tree@.nodes.len(),
        ensures
            v.wf(),
            v.tree_model() == tree@,
            v.pos() == cursor@,
    {
        TreeView { tree, cursor }
    }

    /// The node under the view.
    pub fn node(&self) -> (r: &Node)
        requires
            self.wf(),
        ensures
            r@ == self.tree_model().nodes[self.pos()],
    {
        self.tree.node(self.cursor)
    }

    /// The left child of the current node, if any.
    pub fn left(&self) -> (r: Option<NodeId>)
        requires
            self.wf(),
        ensures
            crate::tree::oid(r) == self.tree_model().nodes[self.pos()].left,
    {
        self.node().left()
    }

    /// The right child of the current node, if any.
    pub fn right(&self) -> (r: Option<NodeId>)
        requires
            self.wf(),
        ensures
            crate::tree::oid(r) == self.tree_model().nodes[self.pos()].right,
    {
        self.node().right()
    }

    /// The parent of the current node, if any. A view has no scope
    /// boundaries: this is the raw parent edge.
    pub fn parent(&self) -> (r: Option<NodeId>)
        requires
            self.wf(),
        ensures
            crate::tree::oid(r) == self.tree_model().nodes[self.pos()].parent,
    {
        self.node().parent()
    }

    /// Moves to the left child if there is one; reports whether it moved.
    pub fn move_left(&mut self) -> (moved: bool)
        requires
            old(self).wf(),
        ensures
            final(self).wf(),
            final(self).tree_model() == old(self).tree_model(),
            (match old(self).tree_model().nodes[old(self).pos()].left {
                Some(l) => moved && final(self).pos() == l,
                None => !moved && final(self).pos() == old(self).pos(),
            }),
    {
        if let Some(left) = self.left() {
            self.cursor = left;
            true
        } else {
            false
        }
    }

    /// Moves to the right child if there is one; reports whether it moved.
    pub fn move_right(&mut self) -> (moved: bool)
        requires
            old(self).wf(),
        ensures
            final(self).wf(),
            final(self).tree_model() == old(self).tree_model(),
            (match old(self).tree_model().nodes[old(self).pos()].right {
                Some(r) => moved && final(self).pos() == r,
                None => !moved && final(self).pos() == old(self).pos(),
            }),
    {
        if let Some(right) = self.right() {
            self.cursor = right;
            true
        } else {
            false
        }
    }

    /// Moves to the parent if there is one; reports whether it moved.
    pub fn move_up(&mut self) -> (moved: bool)
        requires
            old(self).wf(),
        ensures
            final(self).wf(),
            final(self).tree_model() == old(self).tree_model(),
            (match old(self).tree_model().nodes[old(self).pos()].parent {
                Some(p) => moved && final(self).pos() == p,
                None => !moved && final(self).pos() == old(self).pos(),
            }),
    {
        if let Some(parent) = self.parent() {
            self.cursor = parent;
            true
        } else {
            false
        }
    }

    /// The same arena, viewed from another position.
    pub fn at(&self, cursor: NodeId) -> (v: TreeView<'a>)
        requires
            self.wf(),
            0 <= cursor@ < self.tree_model().nodes.len(),
        ensures
            v.wf(),
            v.tree_model() == self.tree_model(),
            v.pos() == cursor@,
    {
        TreeView { tree: self.tree, cursor }
    }

    /// Counts left descents until a node without a left child. The walk is
    /// bounded by the arena size, which a tree never exhausts.
    pub fn count_left(self) -> (r: Option<usize>)
        requires
            self.wf(),
        ensures
            (match (r, chain_count_left(
                self.tree_model(),
                self.pos(),
                self.tree_model().nodes.len(),
            )) {
                (Some(a), Some(b)) => a as nat == b,
                (None, None) => true,
                _ => false,
            }),
    {
        count_left_rec(self.tree, self.cursor, self.tree.len())
    }

    /// Counts right descents until a node without a right child, as
    /// `count_left`.
    pub fn count_right(self) -> (r: Option<usize>)
        requires
            self.wf(),
        ensures
            (match (r, chain_count_right(
                self.tree_model(),
                self.pos(),
                self.tree_model().nodes.len(),
            )) {
                (Some(a), Some(b)) => a as nat == b,
                (None, None) => true,
                _ => false,
            }),
    {
        count_right_rec(self.tree, self.cursor, self.tree.len())
    }

    /// Reads a unary count: the length of the pure left-only chain below
    /// the position, or `None` if a right child interrupts it.
    pub fn count_left_only(self) -> (r: Option<usize>)
        requires
            self.wf(),
        ensures
            (match (r, chain_count_left_only(
                self.tree_model(),
                self.pos(),
                self.tree_model().nodes.len(),
            )) {
                (Some(a), Some(b)) => a as nat == b,
                (None, None) => true,
                _ => false,
            }),
    {
        count_left_only_rec(self.tree, self.cursor, self.tree.len())
    }

    /// The mirror image of `count_left_only`.
    pub fn count_right_only(self) -> (r: Option<usize>)
        requires
            self.wf(),
        ensures
            (match (r, chain_count_right_only(
                self.tree_model(),
                self.pos(),
                self.tree_model().nodes.len(),
            )) {
                (Some(a), Some(b)) => a as nat == b,
                (None, None) => true,
                _ => false,
            }),
    {
        count_right_only_rec(self.tree, self.cursor, self.tree.len())
    }
}

fn count_left_rec(tree: &MultiTree, at: NodeId, fuel: usize) -> (r: Option<usize>)
    requires
        tree.wf(),
        0 <= at@ < tree@.nodes.len(),
    ensures
        (match (r, chain_count_left(tree@, at@, fuel as nat)) {
            (Some(a), Some(b)) => a as nat == b,
            (None, None) => true,
            _ => false,
        }),
        (match r {
            Some(a) => a <= fuel,
            None => true,
        }),
    decreases fuel,
{
    match tree.node(at).left() {
        Some(l) => if fuel == 0 {
            None
        } else {
            match count_left_rec(tree, l, fuel - 1) {
                Some(n) => Some(n + 1),
                None => None,
            }
        },
        None => Some(0),
    }
}

fn count_right_rec(tree: &MultiTree, at: NodeId, fuel: usize) -> (r: Option<usize>)
    requires
        tree.wf(),
        0 <= at@ < tree@.nodes.len(),
    ensures
        (match (r, chain_count_right(tree@, at@, fuel as nat)) {
            (Some(a), Some(b)) => a as nat == b,
            (None, None) => true,
            _ => false,
        }),
        (match r {
            Some(a) => a <= fuel,
            None => true,
        }),
    decreases fuel,
{
    match tree.node(at).right() {
        Some(r) => if fuel == 0 {
            None
        } else {
            match count_right_rec(tree, r, fuel - 1) {
                Some(n) => Some(n + 1),
                None => None,
            }
        },
        None => Some(0),
    }
}

pub(crate) fn count_left_only_rec(tree: &MultiTree, at: NodeId, fuel: usize) -> (r: Option<
    usize,
>)
    requires
        tree.wf(),
        0 <= at@ < tree@.nodes.len(),
    ensures
        (match (r, chain_count_left_only(tree@, at@, fuel as nat)) {
            (Some(a), Some(b)) => a as nat == b,
            (None, None) => true,
            _ => false,
        }),
        (match r {
            Some(a) => a <= fuel,
            None => true,
        }),
    decreases fuel,
{
    if tree.node(at).right().is_some() {
        return None;
    }
    match tree.node(at).left() {
        Some(l) => if fuel == 0 {
            None
        } else {
            match count_left_only_rec(tree, l, fuel - 1) {
                Some(n) => Some(n + 1),
                None => None,
            }
        },
        None => Some(0),
    }
}

fn count_right_only_rec(tree: &MultiTree, at: NodeId, fuel: usize) -> (r: Option<usize>)
    requires
        tree.wf(),
        0 <= at@ < tree@.nodes.len(),
    ensures
        (match (r, chain_count_right_only(tree@, at@, fuel as nat)) {
            (Some(a), Some(b)) => a as nat == b,
            (None, None) => true,
            _ => false,
        }),
        (match r {
            Some(a) => a <= fuel,
            None => true,
        }),
    decreases fuel,
{
    if tree.node(at).left().is_some() {
        return None;
    }
    match tree.node(at).right() {
        Some(r) => if fuel == 0 {
            None
        } else {
            match count_right_only_rec(tree, r, fuel - 1) {
                Some(n) => Some(n + 1),
                None => None,
            }
        },
        None => Some(0),
    }
}

} // verus!

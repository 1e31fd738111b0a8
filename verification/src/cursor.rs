//! The cursor: a stateful, scoped view over one arena — a current position
//! plus a stack of root boundaries limiting upward navigation.
//!
//! A pushed root blocks `move_up` (and `Break`) past it, giving
//! lexical-style subtree isolation for nested reuse of one tree.

use vstd::prelude::*;

verus! {

use crate::tree::MultiTree;
use crate::tree::Node;
use crate::tree::NodeId;
use crate::tree::TreeModel;
use crate::tree::delete_model;
use crate::tree::empty_node_model;
use crate::tree::new_left_model;
use crate::tree::new_right_model;
use crate::tree::tree_model_wf;

/// Mathematical value of a cursor: the arena, the current position and the
/// root-boundary stack (outermost first).
pub struct CursorModel {
    pub tree: TreeModel,
    pub at: int,
    pub roots: Seq<int>,
}

/// Handle sequences as mathematical integer sequences.
pub open spec fn id_ints(v: Seq<NodeId>) -> Seq<int> {
    v.map_values(|id: NodeId| id@)
}

/// The current position sits exactly on the innermost root boundary.
pub open spec fn spec_at_root(c: CursorModel) -> bool {
    c.at == c.roots.last()
}

/// The parent the cursor may move to: none at the innermost boundary
/// (roots are opaque from above), else the node's parent edge.
pub open spec fn spec_parent(c: CursorModel) -> Option<int> {
    if spec_at_root(c) {
        None
    } else {
        c.tree.nodes[c.at].parent
    }
}

/// The `k`-fold parent of `from`, following parent edges.
pub open spec fn ancestor_at(tm: TreeModel, from: int, k: nat) -> Option<int>
    decreases k,
{
    if k == 0 {
        Some(from)
    } else if 0 <= from < tm.nodes.len() {
        match tm.nodes[from].parent {
            Some(p) => ancestor_at(tm, p, (k - 1) as nat),
            None => None,
        }
    } else {
        None
    }
}

/// The innermost boundary lies on the cursor's parent chain.
pub open spec fn boundary_on_chain(c: CursorModel) -> bool {
    exists|k: nat| ancestor_at(c.tree, c.at, k) == Some(c.roots.last())
}

/// Root scoping: `move_up` fails (and moves nothing) exactly on the
/// boundary, and a successful step keeps the boundary on the parent chain —
/// so repeated `move_up` can never move past it.
pub proof fn lemma_move_up_stays_inside(pre: CursorModel, post: CursorModel, moved: bool)
    requires
        0 <= pre.at < pre.tree.nodes.len(),
        boundary_on_chain(pre),
        post.tree == pre.tree,
        post.roots == pre.roots,
        (match spec_parent(pre) {
            Some(p) => moved && post.at == p,
            None => !moved && post.at == pre.at,
        }),
    ensures
        spec_at_root(pre) ==> !moved && post.at == pre.at,
        boundary_on_chain(post),
{
    if moved {
        let k = choose|k: nat| ancestor_at(pre.tree, pre.at, k) == Some(pre.roots.last());
        assert(k != 0) by {
            if k == 0 {
                assert(spec_at_root(pre));
            }
        }
        assert(ancestor_at(post.tree, post.at, (k - 1) as nat) == Some(post.roots.last()));
    }
}

/// A cursor over its own arena: current position plus root-boundary stack.
#[derive(Clone, Debug)]
pub struct TreeCursor {
    tree: MultiTree,
    cursor: NodeId,
    root_stack: Vec<NodeId>,
}

impl View for TreeCursor {
    type V = CursorModel;

    closed spec fn view(&self) -> CursorModel {
        CursorModel { tree: self.tree@, at: self.cursor@, roots: id_ints(self.root_stack@) }
    }
}

/// The arena is well formed, the position and every boundary address a
/// slot, and at least the outermost boundary is always present.
pub open spec fn cursor_model_wf(c: CursorModel) -> bool {
    &&& tree_model_wf(c.tree)
    &&& 0 <= c.at < c.tree.nodes.len()
    &&& c.roots.len() >= 1
    &&& forall|i: int| 0 <= i < c.roots.len() ==> 0 <= #[trigger] c.roots[i] < c.tree.nodes.len()
}

impl TreeCursor {
    /// The cursor's own state is well formed.
    pub open spec fn wf(self) -> bool {
        cursor_model_wf(self@)
    }

    /// A fresh cursor: one arena with a single empty node, which is both
    /// the position and the sole root boundary.
    pub fn new() -> (c: Self)
        ensures
            c.wf(),
            c@.tree.nodes =~= seq![empty_node_model()],
            c@.tree.free is None,
            c@.at == 0,
            c@.roots =~= seq![0int],
    {
        let mut tree = MultiTree::new();
        let root = tree.new_node();
        let c = TreeCursor { tree, cursor: root, root_stack: vec![root] };
        proof {
            assert(c@.roots =~= seq![0int]);
        }
        c
    }

    /// A cursor adopting an existing arena, rooted and positioned at `root`.
    pub(crate) fn from_parts(tree: MultiTree, root: NodeId) -> (c: Self)
        requires
            tree.wf(),
            0 <= root@ < tree@.nodes.len(),
        ensures
            c.wf(),
            c@.tree == tree@,
            c@.at == root@,
            c@.roots =~= seq![root@],
    {
        let c = TreeCursor { tree, cursor: root, root_stack: vec![root] };
        proof {
            assert(c@.roots =~= seq![root@]);
        }
        c
    }

    fn node(&self) -> (r: &Node)
        requires
            self.wf(),
        ensures
            r@ == self@.tree.nodes[self@.at],
    {
        self.tree.node(self.cursor)
    }

    /// Moves to the left child if there is one; reports whether it moved.
    pub fn move_left(&mut self) -> (moved: bool)
        requires
            old(self).wf(),
        ensures
            final(self).wf(),
            final(self)@.tree == old(self)@.tree,
            final(self)@.roots == old(self)@.roots,
            (match old(self)@.tree.nodes[old(self)@.at].left {
                Some(l) => moved && final(self)@.at == l,
                None => !moved && final(self)@.at == old(self)@.at,
            }),
    {
        if let Some(left) = self.node().left() {
            self.cursor = left;
            true
        } else {
            false
        }
    }

    /// Moves to the right child if there is one; reports whether it moved.
    pub fn move_right(&mut self) -> (moved: bool)
        requires
            old(self).wf(),
        ensures
            final(self).wf(),
            final(self)@.tree == old(self)@.tree,
            final(self)@.roots == old(self)@.roots,
            (match old(self)@.tree.nodes[old(self)@.at].right {
                Some(r) => moved && final(self)@.at == r,
                None => !moved && final(self)@.at == old(self)@.at,
            }),
    {
        if let Some(right) = self.node().right() {
            self.cursor = right;
            true
        } else {
            false
        }
    }

    fn parent(&self) -> (r: Option<NodeId>)
        requires
            self.wf(),
        ensures
            crate::tree::oid(r) == spec_parent(self@),
    {
        if !self.at_root() {
            self.node().parent()
        } else {
            None
        }
    }

    /// Moves to the parent unless the position is the innermost root
    /// boundary, which is opaque from above; reports whether it moved.
    ///
    /// While the innermost boundary lies on the parent chain — which
    /// `push_root` establishes and this move keeps — the move fails
    /// exactly at the boundary, so repeated moves stop there and never
    /// pass it.
    pub fn move_up(&mut self) -> (moved: bool)
        requires
            old(self).wf(),
        ensures
            final(self).wf(),
            final(self)@.tree == old(self)@.tree,
            final(self)@.roots == old(self)@.roots,
            (match spec_parent(old(self)@) {
                Some(p) => moved && final(self)@.at == p,
                None => !moved && final(self)@.at == old(self)@.at,
            }),
            boundary_on_chain(old(self)@) ==> moved == !spec_at_root(old(self)@),
            boundary_on_chain(old(self)@) ==> boundary_on_chain(final(self)@),
    {
        let moved = if let Some(parent) = self.parent() {
            self.cursor = parent;
            true
        } else {
            false
        };
        proof {
            if boundary_on_chain(old(self)@) {
                lemma_move_up_stays_inside(old(self)@, self@, moved);
                if !spec_at_root(old(self)@) {
                    let k = choose|k: nat|
                        ancestor_at(old(self)@.tree, old(self)@.at, k) == Some(
                            old(self)@.roots.last(),
                        );
                    assert(k != 0) by {
                        if k == 0 {
                            assert(spec_at_root(old(self)@));
                        }
                    }
                    assert(old(self)@.tree.nodes[old(self)@.at].parent is Some);
                }
            }
        }
        moved
    }

    /// Creates (or overwrites, releasing the prior subtree) the left child
    /// of the current position; the position does not move.
    pub fn new_left(&mut self)
        requires
            old(self).wf(),
        ensures
            final(self).wf(),
            final(self)@.tree == new_left_model(old(self)@.tree, old(self)@.at).0,
            final(self)@.tree.nodes.len() >= old(self)@.tree.nodes.len(),
            final(self)@.at == old(self)@.at,
            final(self)@.roots == old(self)@.roots,
    {
        self.tree.new_left(self.cursor);
    }

    /// Creates (or overwrites, releasing the prior subtree) the right child
    /// of the current position; the position does not move.
    pub fn new_right(&mut self)
        requires
            old(self).wf(),
        ensures
            final(self).wf(),
            final(self)@.tree == new_right_model(old(self)@.tree, old(self)@.at).0,
            final(self)@.tree.nodes.len() >= old(self)@.tree.nodes.len(),
            final(self)@.at == old(self)@.at,
            final(self)@.roots == old(self)@.roots,
    {
        self.tree.new_right(self.cursor);
    }

    /// Releases the current node with its subtree and moves to its parent;
    /// with no parent in scope the tree is unchanged and the call fails.
    pub fn delete(&mut self) -> (deleted: bool)
        requires
            old(self).wf(),
        ensures
            final(self).wf(),
            final(self)@.roots == old(self)@.roots,
            (match spec_parent(old(self)@) {
                Some(p) => deleted && final(self)@.at == p && final(self)@.tree == delete_model(
                    old(self)@.tree,
                    old(self)@.at,
                ),
                None => !deleted && final(self)@.at == old(self)@.at && final(self)@.tree == old(
                    self,
                )@.tree,
            }),
    {
        if let Some(parent) = self.parent() {
            self.tree.delete(self.cursor);
            self.cursor = parent;
            true
        } else {
            false
        }
    }

    /// The arena, without its scoping state.
    pub fn unrooted(&self) -> (r: &MultiTree)
        requires
            self.wf(),
        ensures
            r@ == self@.tree,
            r.wf(),
    {
        &self.tree
    }

    /// Consumes the cursor, keeping only the arena.
    pub fn into_unrooted(self) -> (r: MultiTree)
        requires
            self.wf(),
        ensures
            r@ == self@.tree,
            r.wf(),
    {
        self.tree
    }

    /// The current position.
    pub fn cursor(&self) -> (r: NodeId)
        ensures
            r@ == self@.at,
    {
        self.cursor
    }

    /// Pushes the current position as the new innermost root boundary —
    /// which thereby starts out on the parent chain, so `move_up` can
    /// never pass it.
    pub fn push_root(&mut self)
        requires
            old(self).wf(),
        ensures
            final(self).wf(),
            final(self)@.tree == old(self)@.tree,
            final(self)@.at == old(self)@.at,
            final(self)@.roots == old(self)@.roots.push(old(self)@.at),
            boundary_on_chain(final(self)@),
    {
        self.root_stack.push(self.cursor);
        proof {
            assert(self@.roots =~= old(self)@.roots.push(old(self)@.at));
            assert(ancestor_at(self@.tree, self@.at, 0) == Some(self@.roots.last()));
        }
    }

    /// Pops the innermost root boundary; the sole, outermost boundary
    /// cannot be popped.
    pub fn pop_root(&mut self) -> (r: Option<NodeId>)
        requires
            old(self).wf(),
        ensures
            final(self).wf(),
            final(self)@.tree == old(self)@.tree,
            final(self)@.at == old(self)@.at,
            (if old(self)@.roots.len() >= 2 {
                (match r {
                    Some(id) => id@ == old(self)@.roots.last(),
                    None => false,
                }) && final(self)@.roots == old(self)@.roots.drop_last()
            } else {
                r is None && final(self)@.roots == old(self)@.roots
            }),
    {
        if self.root_stack.len() >= 2 {
            let r = self.root_stack.pop();
            proof {
                assert(self@.roots =~= old(self)@.roots.drop_last());
            }
            r
        } else {
            None
        }
    }

    /// The root-boundary stack, outermost first.
    pub fn root_stack(&self) -> (r: &[NodeId])
        ensures
            id_ints(r@) == self@.roots,
    {
        self.root_stack.as_slice()
    }

    /// Whether the current position is the innermost root boundary.
    pub fn at_root(&self) -> (r: bool)
        requires
            self.wf(),
        ensures
            r == spec_at_root(self@),
    {
        let last = self.root_stack[self.root_stack.len() - 1];
        let r = self.cursor.as_usize() == last.as_usize();
        proof {
            NodeId::lemma_view_injective(self.cursor, last);
        }
        r
    }
}

} // verus!

//! The arena of tree nodes: a growable pool indexed by stable handles, with
//! an intrusive free list and cascading (lazy) subtree deletion.
//!
//! A freed slot's `parent` field is repurposed to hold the next free handle;
//! a freed node's children are only freed when the slot is reallocated.

use vstd::prelude::*;

pub mod view;

verus! {

/// Stable integer handle of one node slot, valid only inside its owning arena.
#[derive(Clone, Copy, Debug, PartialEq, Eq, Structural)]
pub struct NodeId(usize);

impl View for NodeId {
    type V = int;

    closed spec fn view(&self) -> int {
        self.0 as int
    }
}

impl NodeId {
    /// Two handles are the same exactly when they address the same slot.
    pub proof fn lemma_view_injective(a: NodeId, b: NodeId)
        ensures
            (a == b) <==> (a@ == b@),
    {
    }

    pub fn as_usize(self) -> (r: usize)
        ensures
            r as int == self@,
    {
        self.0
    }

    fn new(id: usize) -> (r: NodeId)
        ensures
            r@ == id as int,
    {
        NodeId(id)
    }
}

/// The handle of a child or parent slot, `None` for an absent edge,
/// as a mathematical value.
pub open spec fn oid(o: Option<NodeId>) -> Option<int> {
    match o {
        Some(id) => Some(id@),
        None => None,
    }
}

/// Mathematical value of one node slot: its three edge fields.
pub struct NodeModel {
    pub left: Option<int>,
    pub right: Option<int>,
    pub parent: Option<int>,
}

/// The model of a node slot holding no edges at all.
pub open spec fn empty_node_model() -> NodeModel {
    NodeModel { left: None, right: None, parent: None }
}

/// One node slot: optional left child, right child and parent handles.
///
/// While the slot sits on the free list, `parent` holds the next free handle
/// (or `None` at the end of the list), never a real parent.
#[derive(Clone, Copy, Debug)]
pub struct Node {
    left: Option<NodeId>,
    right: Option<NodeId>,
    parent: Option<NodeId>,
}

impl View for Node {
    type V = NodeModel;

    closed spec fn view(&self) -> NodeModel {
        NodeModel { left: oid(self.left), right: oid(self.right), parent: oid(self.parent) }
    }
}

impl Node {
    pub fn left(&self) -> (r: Option<NodeId>)
        ensures
            oid(r) == self@.left,
    {
        self.left
    }

    pub fn right(&self) -> (r: Option<NodeId>)
        ensures
            oid(r) == self@.right,
    {
        self.right
    }

    pub fn parent(&self) -> (r: Option<NodeId>)
        ensures
            oid(r) == self@.parent,
    {
        self.parent
    }
}

/// Mathematical value of a whole arena: the slots and the free-list head.
pub struct TreeModel {
    pub nodes: Seq<NodeModel>,
    pub free: Option<int>,
}

/// An optional handle either is absent or addresses one of `n` slots.
pub open spec fn opt_in_bounds(o: Option<int>, n: int) -> bool {
    match o {
        Some(i) => 0 <= i < n,
        None => true,
    }
}

/// Every edge of the node stays inside an arena of `n` slots.
pub open spec fn node_wf(nm: NodeModel, n: int) -> bool {
    opt_in_bounds(nm.left, n) && opt_in_bounds(nm.right, n) && opt_in_bounds(nm.parent, n)
}

/// Pushing slot `i` onto the free list: its `parent` field takes the old
/// free-list head and `i` becomes the new head. Nothing else changes.
pub open spec fn free_push(tm: TreeModel, i: int) -> TreeModel {
    TreeModel {
        nodes: tm.nodes.update(
            i,
            NodeModel { left: tm.nodes[i].left, right: tm.nodes[i].right, parent: tm.free },
        ),
        free: Some(i),
    }
}

/// `free_push` for an optional handle: absent edges free nothing.
pub open spec fn free_push_opt(tm: TreeModel, o: Option<int>) -> TreeModel {
    match o {
        Some(i) => free_push(tm, i),
        None => tm,
    }
}

/// Reallocating the free slot `f`: the slot is cleared, the free-list head
/// moves to the next free handle stored in `f`'s parent field, and `f`'s
/// former children (a deferred cascade) are pushed onto the free list,
/// right child first.
pub open spec fn alloc_reuse_model(tm: TreeModel, f: int) -> TreeModel {
    let n = tm.nodes[f];
    let cleared = TreeModel { nodes: tm.nodes.update(f, empty_node_model()), free: n.parent };
    free_push_opt(free_push_opt(cleared, n.right), n.left)
}

/// Allocation: pops the free-list head (with its deferred cascade) if there
/// is one, else grows the pool by one empty slot. Yields the new arena and
/// the allocated slot's index.
pub open spec fn alloc_model(tm: TreeModel) -> (TreeModel, int) {
    match tm.free {
        None => (
            TreeModel { nodes: tm.nodes.push(empty_node_model()), free: None },
            tm.nodes.len() as int,
        ),
        Some(f) => (alloc_reuse_model(tm, f), f),
    }
}

/// Replacing a child: the old occupant (if any) is freed, a node is
/// allocated and its parent field set. Yields the new arena and the
/// allocated slot's index.
pub open spec fn reuse_model(tm: TreeModel, old_child: Option<int>, parent: Option<int>) -> (
    TreeModel,
    int,
) {
    let t1 = free_push_opt(tm, old_child);
    let (t2, r) = alloc_model(t1);
    (
        TreeModel {
            nodes: t2.nodes.update(
                r,
                NodeModel { left: t2.nodes[r].left, right: t2.nodes[r].right, parent },
            ),
            free: t2.free,
        },
        r,
    )
}

/// Creating a fresh left child of `id`, releasing any prior subtree there.
pub open spec fn new_left_model(tm: TreeModel, id: int) -> (TreeModel, int) {
    let (t1, c) = reuse_model(tm, tm.nodes[id].left, Some(id));
    (
        TreeModel {
            nodes: t1.nodes.update(
                id,
                NodeModel { left: Some(c), right: t1.nodes[id].right, parent: t1.nodes[id].parent },
            ),
            free: t1.free,
        },
        c,
    )
}

/// Creating a fresh right child of `id`, releasing any prior subtree there.
pub open spec fn new_right_model(tm: TreeModel, id: int) -> (TreeModel, int) {
    let (t1, c) = reuse_model(tm, tm.nodes[id].right, Some(id));
    (
        TreeModel {
            nodes: t1.nodes.update(
                id,
                NodeModel { left: t1.nodes[id].left, right: Some(c), parent: t1.nodes[id].parent },
            ),
            free: t1.free,
        },
        c,
    )
}

/// Setting the left child slot of `id` to `left`: the child's parent pointer
/// is fixed up and the old occupant (if any) is freed.
pub open spec fn set_left_model(tm: TreeModel, id: int, left: Option<int>) -> TreeModel {
    let old_left = tm.nodes[id].left;
    let t1 = TreeModel {
        nodes: tm.nodes.update(
            id,
            NodeModel { left, right: tm.nodes[id].right, parent: tm.nodes[id].parent },
        ),
        free: tm.free,
    };
    let t2 = match left {
        Some(l) => TreeModel {
            nodes: t1.nodes.update(
                l,
                NodeModel { left: t1.nodes[l].left, right: t1.nodes[l].right, parent: Some(id) },
            ),
            free: t1.free,
        },
        None => t1,
    };
    free_push_opt(t2, old_left)
}

/// Setting the right child slot of `id` to `right`, as `set_left_model`.
pub open spec fn set_right_model(tm: TreeModel, id: int, right: Option<int>) -> TreeModel {
    let old_right = tm.nodes[id].right;
    let t1 = TreeModel {
        nodes: tm.nodes.update(
            id,
            NodeModel { left: tm.nodes[id].left, right, parent: tm.nodes[id].parent },
        ),
        free: tm.free,
    };
    let t2 = match right {
        Some(r) => TreeModel {
            nodes: t1.nodes.update(
                r,
                NodeModel { left: t1.nodes[r].left, right: t1.nodes[r].right, parent: Some(id) },
            ),
            free: t1.free,
        },
        None => t1,
    };
    free_push_opt(t2, old_right)
}

/// Detaching `id` from its parent's child slot and freeing it. The node's
/// subtree is reclaimed lazily: its children are freed when the slot is
/// reallocated.
pub open spec fn delete_model(tm: TreeModel, id: int) -> TreeModel {
    let p_opt = tm.nodes[id].parent;
    let t1 = free_push(tm, id);
    match p_opt {
        Some(p) => if t1.nodes[p].left == Some(id) {
            TreeModel {
                nodes: t1.nodes.update(
                    p,
                    NodeModel {
                        left: None,
                        right: t1.nodes[p].right,
                        parent: t1.nodes[p].parent,
                    },
                ),
                free: t1.free,
            }
        } else if t1.nodes[p].right == Some(id) {
            TreeModel {
                nodes: t1.nodes.update(
                    p,
                    NodeModel { left: t1.nodes[p].left, right: None, parent: t1.nodes[p].parent },
                ),
                free: t1.free,
            }
        } else {
            t1
        },
        None => t1,
    }
}

/// Arena reuse: releasing a slot and then allocating yields that very
/// slot back, with no storage growth — the free list is a stack, so
/// allocation after any release is reuse, never growth.
pub proof fn lemma_release_then_allocate_reuses(tm: TreeModel, id: int)
    requires
        tree_model_wf(tm),
        0 <= id < tm.nodes.len(),
    ensures
        alloc_model(free_push(tm, id)).1 == id,
        alloc_model(free_push(tm, id)).0.nodes.len() == tm.nodes.len(),
{
}

/// Storage is bounded by the peak live-node count, not total churn:
/// allocation grows the pool exactly when the free list is empty.
pub proof fn lemma_allocate_grows_only_without_free(tm: TreeModel)
    requires
        tree_model_wf(tm),
    ensures
        (alloc_model(tm).0.nodes.len() == tm.nodes.len()) <==> (tm.free is Some),
        (tm.free is None) ==> alloc_model(tm).0.nodes.len() == tm.nodes.len() + 1,
{
}

/// Cascade delete: deleting a node clears it from its former parent's
/// child slot, and its children (leaves here) are reclaimed lazily — the
/// next three allocations return the deleted node and then both children,
/// with no storage growth.
pub proof fn lemma_cascade_delete(tm: TreeModel, id: int, p: int, l: int, r: int)
    requires
        tree_model_wf(tm),
        0 <= id < tm.nodes.len(),
        tm.nodes[id].parent == Some(p),
        tm.nodes[id].left == Some(l),
        tm.nodes[id].right == Some(r),
        tm.nodes[l].left is None && tm.nodes[l].right is None,
        tm.nodes[r].left is None && tm.nodes[r].right is None,
        id != p && id != l && id != r && l != r && p != l && p != r,
        tm.nodes[p].left == Some(id) || tm.nodes[p].right == Some(id),
        !(tm.nodes[p].left == Some(id) && tm.nodes[p].right == Some(id)),
    ensures
        ({
            let t1 = delete_model(tm, id);
            &&& t1.nodes[p].left != Some(id)
            &&& t1.nodes[p].right != Some(id)
            &&& alloc_model(t1).1 == id
            &&& alloc_model(alloc_model(t1).0).1 == l
            &&& alloc_model(alloc_model(alloc_model(t1).0).0).1 == r
            &&& alloc_model(alloc_model(alloc_model(t1).0).0).0.nodes.len() == tm.nodes.len()
        }),
{
    let t1 = delete_model(tm, id);
    let t2 = alloc_model(t1).0;
    let t3 = alloc_model(t2).0;
    assert(t1.free == Some(id));
    assert(t1.nodes[id].left == Some(l) && t1.nodes[id].right == Some(r));
    assert(t2.free == Some(l));
    assert(t3.free == Some(r));
}

/// The arena. Owns every node; allocation reuses a free-listed slot in
/// O(1) or grows the pool by one.
#[derive(Clone, Debug)]
pub struct MultiTree {
    nodes: Vec<Node>,
    free: Option<NodeId>,
}

impl View for MultiTree {
    type V = TreeModel;

    closed spec fn view(&self) -> TreeModel {
        TreeModel { nodes: self.nodes@.map_values(|n: Node| n@), free: oid(self.free) }
    }
}

/// Every handle stored anywhere in the arena addresses one of its slots.
pub open spec fn tree_model_wf(tm: TreeModel) -> bool {
    &&& opt_in_bounds(tm.free, tm.nodes.len() as int)
    &&& forall|i: int|
        0 <= i < tm.nodes.len() ==> node_wf(#[trigger] tm.nodes[i], tm.nodes.len() as int)
}

impl MultiTree {
    /// Every handle stored anywhere in the arena addresses one of its slots.
    pub open spec fn wf(self) -> bool {
        tree_model_wf(self@)
    }

    /// How many slots the pool holds (live and free together).
    pub fn len(&self) -> (r: usize)
        ensures
            r == self@.nodes.len(),
    {
        self.nodes.len()
    }

    /// The slot `id` addresses, as a value.
    pub fn node(&self, id: NodeId) -> (r: &Node)
        requires
            self.wf(),
            0 <= id@ < self@.nodes.len(),
        ensures
            r@ == self@.nodes[id@],
            node_wf(r@, self@.nodes.len() as int),
    {
        &self.nodes[id.0]
    }

    pub fn new() -> (t: Self)
        ensures
            t.wf(),
            t@.nodes.len() == 0,
            t@.free is None,
    {
        let t = MultiTree { nodes: Vec::new(), free: None };
        proof {
            assert(t@.nodes =~= Seq::<NodeModel>::empty());
        }
        t
    }

    /// Pushes the slot onto the free list.
    fn free(&mut self, id: NodeId)
        requires
            old(self).wf(),
            0 <= id@ < old(self)@.nodes.len(),
        ensures
            final(self).wf(),
            final(self)@ == free_push(old(self)@, id@),
    {
        let next = self.free;
        let n = &mut self.nodes[id.0];
        n.parent = next;
        self.free = Some(id);
        proof {
            assert(self@.nodes =~= free_push(old(self)@, id@).nodes);
        }
    }

    /// Allocates a fresh empty node: pops the free list if it is non-empty
    /// (freeing the popped slot's former children, the deferred cascade),
    /// otherwise grows the pool by one slot.
    pub fn new_node(&mut self) -> (r: NodeId)
        requires
            old(self).wf(),
        ensures
            final(self).wf(),
            0 <= r@ < final(self)@.nodes.len(),
            match old(self)@.free {
                None => {
                    &&& r@ == old(self)@.nodes.len()
                    &&& final(self)@.nodes == old(self)@.nodes.push(empty_node_model())
                    &&& final(self)@.free is None
                    &&& final(self)@.nodes[r@] == empty_node_model()
                },
                Some(f) => {
                    &&& r@ == f
                    &&& final(self)@ == alloc_reuse_model(old(self)@, f)
                    &&& final(self)@.nodes.len() == old(self)@.nodes.len()
                    &&& (old(self)@.nodes[f].left != Some(f) && old(self)@.nodes[f].right
                        != Some(f)) ==> final(self)@.nodes[r@] == empty_node_model()
                },
            },
    {
        if let Some(id) = self.free {
            let n = &mut self.nodes[id.0];
            let left = n.left;
            let right = n.right;
            let next_free = n.parent;
            n.left = None;
            n.right = None;
            n.parent = None;
            self.free = next_free;
            proof {
                let cleared = TreeModel {
                    nodes: old(self)@.nodes.update(id@, empty_node_model()),
                    free: old(self)@.nodes[id@].parent,
                };
                assert(self@.nodes =~= cleared.nodes);
            }
            if let Some(right) = right {
                self.free(right);
            }
            if let Some(left) = left {
                self.free(left);
            }
            id
        } else {
            let id = NodeId::new(self.nodes.len());
            self.nodes.push(Node { left: None, right: None, parent: None });
            proof {
                assert(self@.nodes =~= old(self)@.nodes.push(empty_node_model()));
            }
            id
        }
    }

    /// Frees the old occupant of a child slot (if any), allocates a node
    /// and points its parent field at `parent`.
    fn new_node_reused(&mut self, id: Option<NodeId>, parent: Option<NodeId>) -> (r: NodeId)
        requires
            old(self).wf(),
            opt_in_bounds(oid(id), old(self)@.nodes.len() as int),
            opt_in_bounds(oid(parent), old(self)@.nodes.len() as int),
        ensures
            final(self).wf(),
            0 <= r@ < final(self)@.nodes.len(),
            final(self)@.nodes.len() >= old(self)@.nodes.len(),
            (final(self)@, r@) == reuse_model(old(self)@, oid(id), oid(parent)),
    {
        if let Some(id) = id {
            self.free(id);
        }
        let r = self.new_node();
        let n = &mut self.nodes[r.as_usize()];
        n.parent = parent;
        proof {
            assert(self@.nodes =~= reuse_model(old(self)@, oid(id), oid(parent)).0.nodes);
        }
        r
    }

    /// Creates a fresh left child of `id`, releasing any prior subtree in
    /// that slot, and attaches it.
    pub fn new_left(&mut self, id: NodeId)
        requires
            old(self).wf(),
            0 <= id@ < old(self)@.nodes.len(),
        ensures
            final(self).wf(),
            final(self)@.nodes.len() >= old(self)@.nodes.len(),
            final(self)@ == new_left_model(old(self)@, id@).0,
    {
        let left = self.new_node_reused(self.node(id).left(), Some(id));
        let n = &mut self.nodes[id.as_usize()];
        n.left = Some(left);
        proof {
            assert(self@.nodes =~= new_left_model(old(self)@, id@).0.nodes);
        }
    }

    /// Creates a fresh right child of `id`, releasing any prior subtree in
    /// that slot, and attaches it.
    pub fn new_right(&mut self, id: NodeId)
        requires
            old(self).wf(),
            0 <= id@ < old(self)@.nodes.len(),
        ensures
            final(self).wf(),
            final(self)@.nodes.len() >= old(self)@.nodes.len(),
            final(self)@ == new_right_model(old(self)@, id@).0,
    {
        let right = self.new_node_reused(self.node(id).right(), Some(id));
        let n = &mut self.nodes[id.as_usize()];
        n.right = Some(right);
        proof {
            assert(self@.nodes =~= new_right_model(old(self)@, id@).0.nodes);
        }
    }

    /// Sets the left child slot of `id` to an existing handle (or clears
    /// it), fixing the child's parent pointer; a replaced occupant's subtree
    /// is released.
    pub fn set_left(&mut self, id: NodeId, left: Option<NodeId>)
        requires
            old(self).wf(),
            0 <= id@ < old(self)@.nodes.len(),
            opt_in_bounds(oid(left), old(self)@.nodes.len() as int),
        ensures
            final(self).wf(),
            final(self)@ == set_left_model(old(self)@, id@, oid(left)),
    {
        let n = &mut self.nodes[id.as_usize()];
        let old_left = n.left;
        n.left = left;
        if let Some(l) = left {
            let c = &mut self.nodes[l.as_usize()];
            c.parent = Some(id);
        }
        proof {
            let n_len = self@.nodes.len() as int;
            assert forall|i: int| 0 <= i < n_len implies node_wf(
                #[trigger] self@.nodes[i],
                n_len,
            ) by {
                assert(node_wf(old(self)@.nodes[i], n_len));
            }
        }
        if let Some(old_left) = old_left {
            self.free(old_left);
        }
        proof {
            assert(self@.nodes =~= set_left_model(old(self)@, id@, oid(left)).nodes);
        }
    }

    /// Sets the right child slot of `id`, as `set_left`.
    pub fn set_right(&mut self, id: NodeId, right: Option<NodeId>)
        requires
            old(self).wf(),
            0 <= id@ < old(self)@.nodes.len(),
            opt_in_bounds(oid(right), old(self)@.nodes.len() as int),
        ensures
            final(self).wf(),
            final(self)@ == set_right_model(old(self)@, id@, oid(right)),
    {
        let n = &mut self.nodes[id.as_usize()];
        let old_right = n.right;
        n.right = right;
        if let Some(r) = right {
            let c = &mut self.nodes[r.as_usize()];
            c.parent = Some(id);
        }
        proof {
            let n_len = self@.nodes.len() as int;
            assert forall|i: int| 0 <= i < n_len implies node_wf(
                #[trigger] self@.nodes[i],
                n_len,
            ) by {
                assert(node_wf(old(self)@.nodes[i], n_len));
            }
        }
        if let Some(old_right) = old_right {
            self.free(old_right);
        }
        proof {
            assert(self@.nodes =~= set_right_model(old(self)@, id@, oid(right)).nodes);
        }
    }

    /// Detaches `id` from its former parent's child slot and frees it; the
    /// subtree below is reclaimed when the slot is reallocated.
    pub fn delete(&mut self, id: NodeId)
        requires
            old(self).wf(),
            0 <= id@ < old(self)@.nodes.len(),
        ensures
            final(self).wf(),
            final(self)@ == delete_model(old(self)@, id@),
    {
        let parent = self.node(id).parent();
        self.free(id);
        if let Some(parent) = parent {
            let p = &mut self.nodes[parent.as_usize()];
            let clear_left = match p.left {
                Some(l) => l.0 == id.0,
                None => false,
            };
            if clear_left {
                p.left = None;
            } else {
                let clear_right = match p.right {
                    Some(r) => r.0 == id.0,
                    None => false,
                };
                if clear_right {
                    p.right = None;
                }
            }
        }
        proof {
            assert(self@.nodes =~= delete_model(old(self)@, id@).nodes);
        }
    }
}

} // verus!

//! The meta-decoder: reads a tree as a self-description and produces a
//! fresh, independently runnable machine.
//!
//! Walking rightward from the outermost root, each node's left child
//! encodes one instruction as a unary count (a pure left-only chain); the
//! walk ends at the first node without a left child. The decoded list is
//! loop-validated and resolved exactly as in parsing. The next node's
//! left-child presence is the decoded success flag, and the node after it
//! must carry (as its left child, with no right sibling) the subtree that
//! seeds the new machine's tree — deep-decoded, never aliased.

use vstd::prelude::*;

verus! {

use crate::ast::Inst;
use crate::ast::ParseError;
use crate::ast::Program;
use crate::ast::spec_resolve;
use crate::cursor::TreeCursor;
use crate::tree::MultiTree;
use crate::tree::NodeId;
use crate::tree::TreeModel;
use crate::tree::view::chain_count_left_only;
use crate::tree::view::count_left_only_rec;
use crate::vm::VM;
use crate::vm::vm_loops_inv;

/// A fault while decoding a tree into a machine; decoding aborts and no
/// partial machine is returned.
#[derive(Clone, Copy, Debug, PartialEq, Eq, Structural)]
pub enum ParseMetaVMError {
    /// A left-descent run interrupted by a right child, at instruction
    /// index `0`-based.
    InvalidNumber(usize),
    /// A unary count outside the opcode range, at instruction index.
    InvalidOpcode(usize),
    /// The decoded instruction list fails loop validation.
    ProgramError(ParseError),
    /// An expected continuation or subtree is absent.
    MissingTree,
    /// An unexpected right child after the success-flag node.
    DataAfterTree,
}

/// The instruction a unary count stands for.
pub open spec fn opcode_of(n: nat) -> Option<Inst> {
    if n == 0 {
        Some(Inst::NewLeft)
    } else if n == 1 {
        Some(Inst::NewRight)
    } else if n == 2 {
        Some(Inst::MoveLeft)
    } else if n == 3 {
        Some(Inst::MoveRight)
    } else if n == 4 {
        Some(Inst::MoveUp)
    } else if n == 5 {
        Some(Inst::LoopHead(usize::MAX))
    } else if n == 6 {
        Some(Inst::LoopTail)
    } else if n == 7 {
        Some(Inst::PushRoot)
    } else if n == 8 {
        Some(Inst::PopRoot)
    } else if n == 9 {
        Some(Inst::Delete)
    } else if n == 10 {
        Some(Inst::Break)
    } else {
        None
    }
}

/// The rightward instruction walk from `at`: each node must have a right
/// child; a left child encodes one instruction as a unary count; the walk
/// ends at the first node without a left child, yielding the raw
/// instruction list and that node's right continuation.
pub open spec fn decode_insts(tm: TreeModel, at: int, pc: nat, fuel: nat) -> Result<
    (Seq<Inst>, int),
    ParseMetaVMError,
>
    decreases fuel,
{
    if !(0 <= at < tm.nodes.len()) || fuel == 0 {
        Err(ParseMetaVMError::MissingTree)
    } else {
        match tm.nodes[at].right {
            None => Err(ParseMetaVMError::MissingTree),
            Some(rt) => match tm.nodes[at].left {
                None => Ok((Seq::empty(), rt)),
                Some(l) => match chain_count_left_only(tm, l, tm.nodes.len()) {
                    None => Err(ParseMetaVMError::InvalidNumber(pc as usize)),
                    Some(c) => match opcode_of(c) {
                        None => Err(ParseMetaVMError::InvalidOpcode(pc as usize)),
                        Some(inst) => match decode_insts(tm, rt, pc + 1, (fuel - 1) as nat) {
                            Ok((s, end)) => Ok((seq![inst] + s, end)),
                            Err(e) => Err(e),
                        },
                    },
                },
            },
        }
    }
}

/// The whole decode: the resolved program, the decoded success flag, and
/// the index (in the source arena) of the subtree that seeds the new
/// machine's tree.
pub open spec fn decode_vm(tm: TreeModel, root: int) -> Result<
    (Seq<Inst>, bool, int),
    ParseMetaVMError,
> {
    match decode_insts(tm, root, 0, tm.nodes.len()) {
        Err(e) => Err(e),
        Ok((raw, flag_node)) => match spec_resolve(raw) {
            Err(pe) => Err(ParseMetaVMError::ProgramError(pe)),
            Ok(resolved) => {
                let success = tm.nodes[flag_node].left is Some;
                match tm.nodes[flag_node].right {
                    None => Err(ParseMetaVMError::MissingTree),
                    Some(c2) => if tm.nodes[c2].right is Some {
                        Err(ParseMetaVMError::DataAfterTree)
                    } else {
                        match tm.nodes[c2].left {
                            None => Err(ParseMetaVMError::MissingTree),
                            Some(sub) => Ok((resolved, success, sub)),
                        }
                    },
                }
            },
        },
    }
}

/// Every child edge points forward, to a higher slot index: the shape the
/// deep copy builds, which makes later writes at lower indices harmless.
pub open spec fn edges_forward(tm: TreeModel) -> bool {
    forall|i: int|
        0 <= i < tm.nodes.len() ==> ((#[trigger] tm.nodes[i]).left matches Some(l) ==> i < l
            < tm.nodes.len()) && (tm.nodes[i].right matches Some(r) ==> i < r < tm.nodes.len())
}

/// The subtrees under `a` (in `ta`) and `b` (in `tb`) are isomorphic down
/// to depth `fuel`: the same child edges are present, recursively.
pub open spec fn same_subtree(ta: TreeModel, a: int, tb: TreeModel, b: int, fuel: nat) -> bool
    decreases fuel,
{
    if fuel == 0 {
        true
    } else {
        &&& 0 <= a < ta.nodes.len()
        &&& 0 <= b < tb.nodes.len()
        &&& (ta.nodes[a].left is Some <==> tb.nodes[b].left is Some)
        &&& (ta.nodes[a].right is Some <==> tb.nodes[b].right is Some)
        &&& (match (ta.nodes[a].left, tb.nodes[b].left) {
            (Some(x), Some(y)) => same_subtree(ta, x, tb, y, (fuel - 1) as nat),
            _ => true,
        })
        &&& (match (ta.nodes[a].right, tb.nodes[b].right) {
            (Some(x), Some(y)) => same_subtree(ta, x, tb, y, (fuel - 1) as nat),
            _ => true,
        })
    }
}

/// The subtree under `at` fits within depth `fuel`: the deep copy's
/// success condition. A subtree inside an arena of `n` slots always fits
/// within depth `n`.
pub open spec fn subtree_fits(tm: TreeModel, at: int, fuel: nat) -> bool
    decreases fuel,
{
    &&& 0 <= at < tm.nodes.len()
    &&& fuel > 0
    &&& (tm.nodes[at].left matches Some(l) ==> subtree_fits(tm, l, (fuel - 1) as nat))
    &&& (tm.nodes[at].right matches Some(r) ==> subtree_fits(tm, r, (fuel - 1) as nat))
}

/// An isomorphism survives any later arena growth and any writes below
/// the subtree's first slot, as long as child edges keep pointing forward.
proof fn lemma_same_subtree_stable(
    ta: TreeModel,
    a: int,
    tb1: TreeModel,
    b: int,
    tb2: TreeModel,
    fuel: nat,
)
    requires
        same_subtree(ta, a, tb1, b, fuel),
        edges_forward(tb1),
        tb2.nodes.len() >= tb1.nodes.len(),
        forall|j: int|
            b <= j < tb1.nodes.len() ==> (#[trigger] tb2.nodes[j]).left == tb1.nodes[j].left
                && tb2.nodes[j].right == tb1.nodes[j].right,
    ensures
        same_subtree(ta, a, tb2, b, fuel),
    decreases fuel,
{
    if fuel > 0 {
        match (ta.nodes[a].left, tb1.nodes[b].left) {
            (Some(x), Some(y)) => {
                lemma_same_subtree_stable(ta, x, tb1, y, tb2, (fuel - 1) as nat);
            },
            _ => {},
        }
        match (ta.nodes[a].right, tb1.nodes[b].right) {
            (Some(x), Some(y)) => {
                lemma_same_subtree_stable(ta, x, tb1, y, tb2, (fuel - 1) as nat);
            },
            _ => {},
        }
    }
}

/// Deep-copies the subtree of `src` under `sid` into `dst`, whose free
/// list must be empty (so every allocation appends). Returns the new
/// subtree root, or `None` when the depth budget runs out.
fn copy_subtree(src: &MultiTree, sid: NodeId, dst: &mut MultiTree, fuel: usize) -> (r: Option<
    NodeId,
>)
    requires
        src.wf(),
        0 <= sid@ < src@.nodes.len(),
        old(dst).wf(),
        old(dst)@.free is None,
        edges_forward(old(dst)@),
    ensures
        final(dst).wf(),
        final(dst)@.free is None,
        edges_forward(final(dst)@),
        final(dst)@.nodes.len() >= old(dst)@.nodes.len(),
        forall|j: int|
            0 <= j < old(dst)@.nodes.len() ==> final(dst)@.nodes[j] == old(dst)@.nodes[j],
        (r matches Some(d)) == subtree_fits(src@, sid@, fuel as nat),
        (match r {
            Some(d) => d@ == old(dst)@.nodes.len() && same_subtree(
                src@,
                sid@,
                final(dst)@,
                d@,
                fuel as nat,
            ),
            None => true,
        }),
    decreases fuel,
{
    if fuel == 0 {
        return None;
    }
    let d = dst.new_node();
    let src_left = src.node(sid).left();
    let src_right = src.node(sid).right();
    let mut d_left: Option<NodeId> = None;
    let ghost mut left_state: TreeModel = dst@;
    if let Some(l) = src_left {
        match copy_subtree(src, l, dst, fuel - 1) {
            Some(dl) => {
                let ghost after_copy = dst@;
                dst.set_left(d, Some(dl));
                proof {
                    assert forall|i: int|
                        0 <= i < dst@.nodes.len() implies ((#[trigger] dst@.nodes[i]).left
                        matches Some(x) ==> i < x < dst@.nodes.len()) && (dst@.nodes[i].right
                        matches Some(x) ==> i < x < dst@.nodes.len()) by {
                        if i != d@ && i != dl@ {
                            assert(dst@.nodes[i] == after_copy.nodes[i]);
                        }
                    }
                    lemma_same_subtree_stable(src@, l@, after_copy, dl@, dst@, (fuel - 1) as nat);
                    left_state = dst@;
                }
                d_left = Some(dl);
            },
            None => {
                return None;
            },
        }
    }
    if let Some(rr) = src_right {
        match copy_subtree(src, rr, dst, fuel - 1) {
            Some(dr) => {
                let ghost after_copy_r = dst@;
                dst.set_right(d, Some(dr));
                proof {
                    assert forall|i: int|
                        0 <= i < dst@.nodes.len() implies ((#[trigger] dst@.nodes[i]).left
                        matches Some(x) ==> i < x < dst@.nodes.len()) && (dst@.nodes[i].right
                        matches Some(x) ==> i < x < dst@.nodes.len()) by {
                        if i != d@ && i != dr@ {
                            assert(dst@.nodes[i] == after_copy_r.nodes[i]);
                        }
                    }
                    lemma_same_subtree_stable(
                        src@,
                        rr@,
                        after_copy_r,
                        dr@,
                        dst@,
                        (fuel - 1) as nat,
                    );
                    match d_left {
                        Some(dl) => {
                            lemma_same_subtree_stable(
                                src@,
                                src@.nodes[sid@].left->0,
                                left_state,
                                dl@,
                                dst@,
                                (fuel - 1) as nat,
                            );
                        },
                        None => {},
                    }
                }
            },
            None => {
                return None;
            },
        }
    }
    Some(d)
}

/// The deep copy's depth budget: a subtree held inside an arena of `n`
/// slots spans at most `n` nodes, so depth `n` always suffices — unless
/// the arena's edges form a cycle, which no tree built through the
/// arena's own operations has.
pub open spec fn decode_fuel(tm: TreeModel) -> nat {
    tm.nodes.len()
}

/// The rightward instruction walk, mirroring `decode_insts`: the raw
/// instruction list and the node after the last encoded instruction.
fn decode_walk(tree: &MultiTree, at: NodeId, pc: usize, fuel: usize) -> (r: Result<
    (Vec<Inst>, NodeId),
    ParseMetaVMError,
>)
    requires
        tree.wf(),
        0 <= at@ < tree@.nodes.len(),
        pc + fuel <= usize::MAX,
    ensures
        (match (r, decode_insts(tree@, at@, pc as nat, fuel as nat)) {
            (Ok((v, e)), Ok((s, es))) => v@ == s && e@ == es && 0 <= es < tree@.nodes.len(),
            (Err(a), Err(b)) => a == b,
            _ => false,
        }),
    decreases fuel,
{
    if fuel == 0 {
        return Err(ParseMetaVMError::MissingTree);
    }
    let node = tree.node(at);
    let next = match node.right() {
        Some(next) => next,
        None => {
            return Err(ParseMetaVMError::MissingTree);
        },
    };
    match node.left() {
        None => {
            let v: Vec<Inst> = Vec::new();
            proof {
                assert(v@ =~= Seq::<Inst>::empty());
            }
            Ok((v, next))
        },
        Some(l) => {
            let count = match count_left_only_rec(tree, l, tree.len()) {
                Some(c) => c,
                None => {
                    return Err(ParseMetaVMError::InvalidNumber(pc));
                },
            };
            let inst = match opcode_from(count) {
                Some(inst) => inst,
                None => {
                    return Err(ParseMetaVMError::InvalidOpcode(pc));
                },
            };
            match decode_walk(tree, next, pc + 1, fuel - 1) {
                Ok((v, e)) => {
                    let ghost v0 = v@;
                    let mut v = v;
                    v.insert(0, inst);
                    proof {
                        assert(v@ =~= seq![inst] + v0);
                    }
                    Ok((v, e))
                },
                Err(e) => Err(e),
            }
        },
    }
}

impl TreeCursor {
    /// Decodes the tree reachable from the outermost root into a fresh
    /// machine: its program, its success flag and its own deep-copied tree,
    /// ready to run from the first instruction. The source tree is read,
    /// never changed, and shares nothing with the result.
    pub fn parse_meta_vm(&self) -> (r: Result<VM, ParseMetaVMError>)
        requires
            self.wf(),
        ensures
            (match (r, decode_vm(self@.tree, self@.roots[0])) {
                (Err(e1), Err(e2)) => e1 == e2,
                (Ok(vm), Ok((prog, success, sub))) => {
                    &&& subtree_fits(self@.tree, sub, decode_fuel(self@.tree))
                    &&& vm.wf()
                    &&& vm_loops_inv(vm@)
                    &&& vm@.prog == prog
                    &&& vm@.success == success
                    &&& vm@.pc == 0
                    &&& vm@.loops =~= Seq::<(int, int)>::empty()
                    &&& vm@.tree.tree.free is None
                    &&& vm@.tree.at == 0
                    &&& vm@.tree.roots =~= seq![0int]
                    &&& same_subtree(
                        self@.tree,
                        sub,
                        vm@.tree.tree,
                        0,
                        decode_fuel(self@.tree),
                    )
                },
                (Err(e1), Ok((prog, success, sub))) => e1 == ParseMetaVMError::MissingTree
                    && !subtree_fits(self@.tree, sub, decode_fuel(self@.tree)),
                _ => false,
            }),
    {
        let tree = self.unrooted();
        let n = tree.len();
        let rs = self.root_stack();
        proof {
            assert(crate::cursor::id_ints(rs@).len() == rs@.len());
        }
        let root = rs[0];
        proof {
            assert(crate::cursor::id_ints(rs@)[0] == rs@[0]@);
        }

        let (insts, flag_node) = match decode_walk(tree, root, 0, n) {
            Ok(pair) => pair,
            Err(e) => {
                return Err(e);
            },
        };

        let prog = match Program::from_insts(insts) {
            Ok(prog) => prog,
            Err(e) => {
                return Err(ParseMetaVMError::ProgramError(e));
            },
        };

        let success = tree.node(flag_node).left().is_some();
        let c2 = match tree.node(flag_node).right() {
            Some(c2) => c2,
            None => {
                return Err(ParseMetaVMError::MissingTree);
            },
        };
        if tree.node(c2).right().is_some() {
            return Err(ParseMetaVMError::DataAfterTree);
        }
        let sub = match tree.node(c2).left() {
            Some(sub) => sub,
            None => {
                return Err(ParseMetaVMError::MissingTree);
            },
        };

        let mut fresh = MultiTree::new();
        proof {
            assert(edges_forward(fresh@));
        }
        let new_root = match copy_subtree(tree, sub, &mut fresh, n) {
            Some(new_root) => new_root,
            None => {
                return Err(ParseMetaVMError::MissingTree);
            },
        };
        let cursor = TreeCursor::from_parts(fresh, new_root);
        Ok(VM::from_parts(prog, 0, cursor, success))
    }
}

fn opcode_from(n: usize) -> (r: Option<Inst>)
    ensures
        r == opcode_of(n as nat),
{
    if n == 0 {
        Some(Inst::NewLeft)
    } else if n == 1 {
        Some(Inst::NewRight)
    } else if n == 2 {
        Some(Inst::MoveLeft)
    } else if n == 3 {
        Some(Inst::MoveRight)
    } else if n == 4 {
        Some(Inst::MoveUp)
    } else if n == 5 {
        Some(Inst::LoopHead(usize::MAX))
    } else if n == 6 {
        Some(Inst::LoopTail)
    } else if n == 7 {
        Some(Inst::PushRoot)
    } else if n == 8 {
        Some(Inst::PopRoot)
    } else if n == 9 {
        Some(Inst::Delete)
    } else if n == 10 {
        Some(Inst::Break)
    } else {
        None
    }
}

} // verus!

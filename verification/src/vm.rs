//! The virtual machine: couples a program with a cursor and executes one
//! instruction at a time, with a loop-control stack and a success flag.

use vstd::prelude::*;

verus! {

use crate::ast::Inst;
use crate::ast::Program;
use crate::ast::is_matching_tail;
use crate::ast::lemma_net_one;
use crate::ast::lemma_net_prefix_split;
use crate::ast::loops_balanced;
use crate::ast::loops_resolved;
use crate::ast::net_opens;
use crate::cursor::CursorModel;
use crate::cursor::TreeCursor;
use crate::cursor::cursor_model_wf;
use crate::cursor::spec_at_root;
use crate::cursor::spec_parent;
use crate::tree::delete_model;
use crate::tree::new_left_model;
use crate::tree::new_right_model;

/// A fatal execution fault; `run` aborts on it, without retry. Ordinary
/// failed instructions (a move that could not happen) are not errors: they
/// only clear the success flag.
#[derive(Clone, Copy, Debug, PartialEq, Eq, Structural)]
pub enum VMError {
    /// The machine was stepped although the program counter had already
    /// passed the end of the program.
    Terminated,
    /// `PopRoot` while only the outermost root boundary remained.
    /// Unreachable from well-nested `{`/`}` text, but checked at run time.
    RootStackUnderflow,
    /// `LoopTail` with no loop active. Unreachable when execution starts
    /// at the beginning of a validated program, but checked at run time.
    LoopStackUnderflow,
}

/// Mathematical value of a machine: the resolved program, the program
/// counter, the cursor, the loop-control stack of (head index, tail index)
/// pairs, and the success flag.
pub struct VmModel {
    pub prog: Seq<Inst>,
    pub pc: int,
    pub tree: CursorModel,
    pub loops: Seq<(int, int)>,
    pub success: bool,
}

/// The program's loops are resolved, the cursor is well formed, and every
/// active loop record points into the program.
pub open spec fn vm_model_wf(m: VmModel) -> bool {
    &&& loops_resolved(m.prog)
    &&& cursor_model_wf(m.tree)
    &&& forall|i: int|
        0 <= i < m.loops.len() ==> 0 <= (#[trigger] m.loops[i]).0 < m.prog.len() && 0
            <= m.loops[i].1 < m.prog.len()
}

/// Executing exactly the instruction under the program counter: the
/// successor state, or the fatal fault.
///
/// - moves and `Delete` set the success flag to whether they happened;
/// - `PushRoot` pushes a boundary and, as it always achieves its effect,
///   raises the flag; `PopRoot` pops one, or faults on the sole outermost
///   boundary;
/// - `LoopHead` records (own index, tail index) and falls through;
/// - `LoopTail` repeats its body from after the head while the flag holds,
///   pops the loop otherwise, and forces the flag true either way;
/// - `Break` succeeds only at the innermost boundary and then resumes after
///   the nearest enclosing loop's tail — or past the end of the program if
///   no loop is active, terminating the machine.
pub open spec fn step_model(pre: VmModel) -> Result<VmModel, VMError> {
    if !(0 <= pre.pc < pre.prog.len()) {
        Err(VMError::Terminated)
    } else {
        let c = pre.tree;
        match pre.prog[pre.pc] {
            Inst::MoveLeft => Ok(
                match c.tree.nodes[c.at].left {
                    Some(l) => VmModel {
                        pc: pre.pc + 1,
                        tree: CursorModel { tree: c.tree, at: l, roots: c.roots },
                        success: true,
                        ..pre
                    },
                    None => VmModel { pc: pre.pc + 1, success: false, ..pre },
                },
            ),
            Inst::MoveRight => Ok(
                match c.tree.nodes[c.at].right {
                    Some(r) => VmModel {
                        pc: pre.pc + 1,
                        tree: CursorModel { tree: c.tree, at: r, roots: c.roots },
                        success: true,
                        ..pre
                    },
                    None => VmModel { pc: pre.pc + 1, success: false, ..pre },
                },
            ),
            Inst::MoveUp => Ok(
                match spec_parent(c) {
                    Some(p) => VmModel {
                        pc: pre.pc + 1,
                        tree: CursorModel { tree: c.tree, at: p, roots: c.roots },
                        success: true,
                        ..pre
                    },
                    None => VmModel { pc: pre.pc + 1, success: false, ..pre },
                },
            ),
            Inst::PushRoot => Ok(
                VmModel {
                    pc: pre.pc + 1,
                    tree: CursorModel { tree: c.tree, at: c.at, roots: c.roots.push(c.at) },
                    success: true,
                    ..pre
                },
            ),
            Inst::PopRoot => if c.roots.len() >= 2 {
                Ok(
                    VmModel {
                        pc: pre.pc + 1,
                        tree: CursorModel { tree: c.tree, at: c.at, roots: c.roots.drop_last() },
                        success: true,
                        ..pre
                    },
                )
            } else {
                Err(VMError::RootStackUnderflow)
            },
            Inst::LoopHead(t) => Ok(
                VmModel {
                    pc: pre.pc + 1,
                    loops: pre.loops.push((pre.pc, t as int)),
                    ..pre
                },
            ),
            Inst::LoopTail => if pre.loops.len() == 0 {
                Err(VMError::LoopStackUnderflow)
            } else if pre.success {
                Ok(VmModel { pc: pre.loops.last().0 + 1, success: true, ..pre })
            } else {
                Ok(
                    VmModel {
                        pc: pre.pc + 1,
                        loops: pre.loops.drop_last(),
                        success: true,
                        ..pre
                    },
                )
            },
            Inst::NewLeft => Ok(
                VmModel {
                    pc: pre.pc + 1,
                    tree: CursorModel {
                        tree: new_left_model(c.tree, c.at).0,
                        at: c.at,
                        roots: c.roots,
                    },
                    success: true,
                    ..pre
                },
            ),
            Inst::NewRight => Ok(
                VmModel {
                    pc: pre.pc + 1,
                    tree: CursorModel {
                        tree: new_right_model(c.tree, c.at).0,
                        at: c.at,
                        roots: c.roots,
                    },
                    success: true,
                    ..pre
                },
            ),
            Inst::Delete => Ok(
                match spec_parent(c) {
                    Some(p) => VmModel {
                        pc: pre.pc + 1,
                        tree: CursorModel {
                            tree: delete_model(c.tree, c.at),
                            at: p,
                            roots: c.roots,
                        },
                        success: true,
                        ..pre
                    },
                    None => VmModel { pc: pre.pc + 1, success: false, ..pre },
                },
            ),
            Inst::Break => if spec_at_root(c) {
                if pre.loops.len() > 0 {
                    Ok(
                        VmModel {
                            pc: pre.loops.last().1 + 1,
                            loops: pre.loops.drop_last(),
                            success: true,
                            ..pre
                        },
                    )
                } else {
                    Ok(VmModel { pc: pre.prog.len() as int, success: true, ..pre })
                }
            } else {
                Ok(VmModel { pc: pre.pc + 1, success: false, ..pre })
            },
        }
    }
}

/// The run-time loop stack mirrors the counter's loop depth: each record
/// is a resolved head at its own nesting depth, and the stack is exactly
/// as deep as the number of loop heads opened before the counter. It
/// holds of every fresh machine and is kept by every step.
pub open spec fn vm_loops_inv(m: VmModel) -> bool {
    &&& loops_balanced(m.prog)
    &&& loops_resolved(m.prog)
    &&& 0 <= m.pc <= m.prog.len()
    &&& m.loops.len() == net_opens(m.prog.subrange(0, m.pc))
    &&& forall|i: int|
        0 <= i < m.loops.len() ==> {
            let h = (#[trigger] m.loops[i]).0;
            let t = m.loops[i].1;
            &&& 0 <= h < m.prog.len()
            &&& m.prog[h] == Inst::LoopHead(t as usize)
            &&& is_matching_tail(m.prog, h, t)
            &&& net_opens(m.prog.subrange(0, h)) == i
        }
}

/// A `LoopTail` can never find the loop stack empty while the invariant
/// holds: the fault `LoopStackUnderflow` is unreachable from any machine
/// built over a validated program, though it is still checked at run
/// time. Every successor state keeps the invariant.
pub proof fn lemma_step_never_underflows(pre: VmModel)
    requires
        vm_loops_inv(pre),
    ensures
        step_model(pre) != Err::<VmModel, VMError>(VMError::LoopStackUnderflow),
        step_model(pre) matches Ok(post) ==> vm_loops_inv(post),
{
    let s = pre.prog;
    let n = s.len() as int;
    if 0 <= pre.pc < n {
        let pc = pre.pc;
        lemma_net_prefix_split(s, pc, pc + 1);
        lemma_net_one(s, pc);
        match s[pc] {
            Inst::LoopHead(t) => {
                assert(is_matching_tail(s, pc, t as int));
                match step_model(pre) {
                    Ok(post) => {
                    assert(post.loops.last() == (pc, t as int));
                    assert forall|i: int| 0 <= i < post.loops.len() implies {
                        let h = (#[trigger] post.loops[i]).0;
                        let t2 = post.loops[i].1;
                        &&& 0 <= h < n
                        &&& post.prog[h] == Inst::LoopHead(t2 as usize)
                        &&& is_matching_tail(post.prog, h, t2)
                        &&& net_opens(post.prog.subrange(0, h)) == i
                    } by {
                        if i < pre.loops.len() {
                            assert(post.loops[i] == pre.loops[i]);
                        }
                    }
                },
                    _ => {},
                }
            },
            Inst::LoopTail => {
                // the depth equation rules the empty stack out: one more
                // tail would drive a prefix of a balanced program negative
                assert(pre.loops.len() > 0) by {
                    if pre.loops.len() == 0 {
                        assert(net_opens(s.subrange(0, pc + 1)) == -1);
                        assert(0 + net_opens(s.subrange(0, pc + 1)) >= 0);
                    }
                }
                let h = pre.loops.last().0;
                if pre.success {
                    // jump to just after the head, one level inside
                    lemma_net_prefix_split(s, h, h + 1);
                    lemma_net_one(s, h);
                } else {
                    // fall past the tail, one level out, top popped
                    match step_model(pre) {
                    Ok(post) => {
                        assert forall|i: int| 0 <= i < post.loops.len() implies {
                            let h2 = (#[trigger] post.loops[i]).0;
                            let t2 = post.loops[i].1;
                            &&& 0 <= h2 < n
                            &&& post.prog[h2] == Inst::LoopHead(t2 as usize)
                            &&& is_matching_tail(post.prog, h2, t2)
                            &&& net_opens(post.prog.subrange(0, h2)) == i
                        } by {
                            assert(post.loops[i] == pre.loops[i]);
                        }
                    },
                    _ => {},
                }
                }
            },
            Inst::Break => {
                if spec_at_root(pre.tree) && pre.loops.len() > 0 {
                    let k = pre.loops.len() as int;
                    let h = pre.loops.last().0;
                    let t = pre.loops.last().1;
                    assert(is_matching_tail(s, h, t));
                    // depth after the matching tail: one level above the
                    // head's own depth
                    lemma_net_prefix_split(s, h + 1, t + 1);
                    lemma_net_prefix_split(s, h, h + 1);
                    lemma_net_one(s, h);
                    lemma_net_prefix_split(s.subrange(h + 1, t + 1), t - h - 1, t - h);
                    assert(s.subrange(h + 1, t + 1).subrange(0, t - h - 1) =~= s.subrange(
                        h + 1,
                        t,
                    ));
                    assert(s.subrange(h + 1, t + 1).subrange(t - h - 1, t - h) =~= s.subrange(
                        t,
                        t + 1,
                    ));
                    lemma_net_one(s, t);
                    assert(net_opens(s.subrange(0, t + 1)) == k - 1);
                    match step_model(pre) {
                    Ok(post) => {
                        assert forall|i: int| 0 <= i < post.loops.len() implies {
                            let h2 = (#[trigger] post.loops[i]).0;
                            let t2 = post.loops[i].1;
                            &&& 0 <= h2 < n
                            &&& post.prog[h2] == Inst::LoopHead(t2 as usize)
                            &&& is_matching_tail(post.prog, h2, t2)
                            &&& net_opens(post.prog.subrange(0, h2)) == i
                        } by {
                            assert(post.loops[i] == pre.loops[i]);
                        }
                    },
                    _ => {},
                }
                } else if spec_at_root(pre.tree) {
                    assert(s.subrange(0, n) =~= s);
                }
            },
            _ => {},
        }
    }
}

/// Loop semantics, exit half: a `LoopTail` reached with the success flag
/// down leaves the loop at once — the counter moves past the tail and the
/// loop record is popped, so a body whose last instruction failed runs
/// exactly once.
pub proof fn lemma_loop_exits_on_failure(pre: VmModel)
    requires
        0 <= pre.pc < pre.prog.len(),
        pre.prog[pre.pc] is LoopTail,
        !pre.success,
        pre.loops.len() > 0,
    ensures
        step_model(pre) matches Ok(post) && post.pc == pre.pc + 1 && post.loops
            == pre.loops.drop_last() && post.success && post.tree == pre.tree,
{
}

/// Loop semantics, repeat half: a `LoopTail` reached with the success flag
/// up jumps back to just after the matching head, keeping the loop record.
pub proof fn lemma_loop_repeats_on_success(pre: VmModel)
    requires
        0 <= pre.pc < pre.prog.len(),
        pre.prog[pre.pc] is LoopTail,
        pre.success,
        pre.loops.len() > 0,
    ensures
        step_model(pre) matches Ok(post) && post.pc == pre.loops.last().0 + 1 && post.loops
            == pre.loops && post.success && post.tree == pre.tree,
{
}

/// Stepping repeatedly with a budget of `fuel` instructions: the final
/// state and the report — `Ok(true)` for normal termination, `Ok(false)`
/// for a budget spent with the machine still running, or the fatal fault,
/// which leaves the machine as the faulting step found it.
pub open spec fn run_model(pre: VmModel, fuel: nat) -> (VmModel, Result<bool, VMError>)
    decreases fuel,
{
    if fuel == 0 {
        if pre.pc >= pre.prog.len() {
            (pre, Ok(true))
        } else {
            (pre, Ok(false))
        }
    } else {
        match step_model(pre) {
            Err(VMError::Terminated) => (pre, Ok(true)),
            Err(e) => (pre, Err(e)),
            Ok(m) => run_model(m, (fuel - 1) as nat),
        }
    }
}

/// The virtual machine.
#[derive(Clone, Debug)]
pub struct VM {
    pub(crate) prog: Program,
    pub(crate) pc: usize,
    pub(crate) tree: TreeCursor,
    pub(crate) loop_stack: Vec<(usize, usize)>,
    pub(crate) success: bool,
}

impl View for VM {
    type V = VmModel;

    closed spec fn view(&self) -> VmModel {
        VmModel {
            prog: self.prog@,
            pc: self.pc as int,
            tree: self.tree@,
            loops: self.loop_stack@.map_values(|p: (usize, usize)| (p.0 as int, p.1 as int)),
            success: self.success,
        }
    }
}

impl VM {
    /// The machine's state is well formed.
    pub open spec fn wf(self) -> bool {
        vm_model_wf(self@)
    }

    /// A fresh machine over `prog`: counter at the start, a fresh
    /// single-node tree, no active loop, success flag down.
    pub fn new(prog: Program) -> (vm: Self)
        requires
            prog.wf(),
        ensures
            vm.wf(),
            vm@.prog == prog@,
            vm@.pc == 0,
            vm@.loops =~= Seq::<(int, int)>::empty(),
            vm@.success == false,
            vm@.tree.tree.nodes =~= seq![crate::tree::empty_node_model()],
            vm@.tree.tree.free is None,
            vm@.tree.at == 0,
            vm@.tree.roots =~= seq![0int],
            vm_loops_inv(vm@),
    {
        let vm = VM {
            prog,
            pc: 0,
            tree: TreeCursor::new(),
            loop_stack: vec![],
            success: false,
        };
        proof {
            assert(vm@.loops =~= Seq::<(int, int)>::empty());
            assert(vm@.prog.subrange(0, 0) =~= Seq::<Inst>::empty());
        }
        vm
    }

    /// A machine assembled from decoded parts: a validated program, a
    /// counter, a cursor and a success flag, with no loop active.
    pub(crate) fn from_parts(prog: Program, pc: usize, tree: TreeCursor, success: bool) -> (vm:
        Self)
        requires
            prog.wf(),
            tree.wf(),
        ensures
            vm.wf(),
            vm@.prog == prog@,
            vm@.pc == pc as int,
            vm@.tree == tree@,
            vm@.loops =~= Seq::<(int, int)>::empty(),
            vm@.success == success,
            pc == 0 ==> vm_loops_inv(vm@),
    {
        let vm = VM { prog, pc, tree, loop_stack: vec![], success };
        proof {
            assert(vm@.loops =~= Seq::<(int, int)>::empty());
            assert(vm@.prog.subrange(0, 0) =~= Seq::<Inst>::empty());
        }
        vm
    }

    /// Executes exactly the instruction at the program counter.
    pub fn step(&mut self) -> (r: Result<(), VMError>)
        requires
            old(self).wf(),
        ensures
            final(self).wf(),
            (match step_model(old(self)@) {
                Ok(m) => r is Ok && final(self)@ == m,
                Err(e) => r == Err::<(), VMError>(e) && final(self)@ == old(self)@,
            }),
            vm_loops_inv(old(self)@) ==> vm_loops_inv(final(self)@) && r != Err::<(), VMError>(
                VMError::LoopStackUnderflow,
            ),
    {
        proof {
            if vm_loops_inv(self@) {
                lemma_step_never_underflows(self@);
            }
        }
        let pc = self.pc;
        let n = self.prog.len();
        let inst = match self.prog.get(pc) {
            Some(inst) => *inst,
            None => {
                return Err(VMError::Terminated);
            },
        };
        let ghost pre = self@;
        match inst {
            Inst::MoveLeft => {
                self.success = self.tree.move_left();
            },
            Inst::MoveRight => {
                self.success = self.tree.move_right();
            },
            Inst::MoveUp => {
                self.success = self.tree.move_up();
            },
            Inst::PushRoot => {
                self.tree.push_root();
                self.success = true;
            },
            Inst::PopRoot => {
                match self.tree.pop_root() {
                    Some(_) => {
                        self.success = true;
                    },
                    None => {
                        return Err(VMError::RootStackUnderflow);
                    },
                }
            },
            Inst::LoopHead(tail) => {
                self.loop_stack.push((pc, tail));
                proof {
                    assert(self@.loops =~= pre.loops.push((pre.pc, tail as int)));
                }
            },
            Inst::LoopTail => {
                if self.loop_stack.len() == 0 {
                    return Err(VMError::LoopStackUnderflow);
                }
                if self.success {
                    let (head, _) = self.loop_stack[self.loop_stack.len() - 1];
                    self.pc = head + 1;
                    self.success = true;
                    proof {
                        assert(self@ == step_model(pre)->Ok_0);
                    }
                    return Ok(());
                } else {
                    self.loop_stack.pop();
                    self.success = true;
                    proof {
                        assert(self@.loops =~= pre.loops.drop_last());
                    }
                }
            },
            Inst::NewLeft => {
                self.tree.new_left();
                self.success = true;
            },
            Inst::NewRight => {
                self.tree.new_right();
                self.success = true;
            },
            Inst::Delete => {
                self.success = self.tree.delete();
            },
            Inst::Break => {
                self.success = self.tree.at_root();
                if self.success {
                    if self.loop_stack.len() > 0 {
                        let tail = self.loop_stack[self.loop_stack.len() - 1].1;
                        self.loop_stack.pop();
                        self.pc = tail + 1;
                        proof {
                            assert(self@.loops =~= pre.loops.drop_last());
                            assert(self@ == step_model(pre)->Ok_0);
                        }
                    } else {
                        self.pc = self.prog.len();
                        proof {
                            assert(self@ == step_model(pre)->Ok_0);
                        }
                    }
                    return Ok(());
                }
            },
        }
        self.pc = pc + 1;
        proof {
            assert(self@ == step_model(pre)->Ok_0);
        }
        Ok(())
    }

    /// Steps until the counter passes the end of the program (normal
    /// termination, `Ok(true)`), reporting a fatal fault immediately; a
    /// program may loop forever, so the caller bounds the step count, and
    /// `Ok(false)` says the budget ran out with the machine still running.
    /// Stepping a machine that has already terminated is itself the fatal
    /// fault `Terminated`, with the machine untouched.
    pub fn run(&mut self, max_steps: usize) -> (r: Result<bool, VMError>)
        requires
            old(self).wf(),
        ensures
            final(self).wf(),
            final(self)@.prog == old(self)@.prog,
            (r == Err::<bool, VMError>(VMError::Terminated)) <==> (old(self)@.pc
                >= old(self)@.prog.len()),
            r == Err::<bool, VMError>(VMError::Terminated) ==> final(self)@ == old(self)@,
            old(self)@.pc < old(self)@.prog.len() ==> (final(self)@, r) == run_model(
                old(self)@,
                max_steps as nat,
            ),
            r == Ok::<bool, VMError>(true) ==> final(self)@.pc >= final(self)@.prog.len(),
            r == Ok::<bool, VMError>(false) ==> final(self)@.pc < final(self)@.prog.len(),
            vm_loops_inv(old(self)@) ==> vm_loops_inv(final(self)@) && r != Err::<bool, VMError>(
                VMError::LoopStackUnderflow,
            ),
    {
        if self.pc >= self.prog.len() {
            return Err(VMError::Terminated);
        }
        let mut steps: usize = 0;
        while steps < max_steps
            invariant
                self.wf(),
                self@.prog == old(self)@.prog,
                old(self)@.pc < old(self)@.prog.len(),
                vm_loops_inv(old(self)@) ==> vm_loops_inv(self@),
                steps <= max_steps,
                run_model(old(self)@, max_steps as nat) == run_model(
                    self@,
                    (max_steps - steps) as nat,
                ),
            decreases max_steps - steps,
        {
            match self.step() {
                Ok(_) => {},
                Err(err) => {
                    if err == VMError::Terminated {
                        return Ok(true);
                    } else {
                        return Err(err);
                    }
                },
            }
            steps += 1;
        }
        if self.pc >= self.prog.len() {
            Ok(true)
        } else {
            Ok(false)
        }
    }

    /// The program the machine executes.
    pub fn program(&self) -> (r: &Program)
        ensures
            r@ == self@.prog,
    {
        &self.prog
    }

    /// The machine's tree, through its cursor.
    pub fn tree(&self) -> (r: &TreeCursor)
        ensures
            r@ == self@.tree,
    {
        &self.tree
    }
}

} // verus!

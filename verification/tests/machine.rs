use leafy::Program;
use leafy::TreeView;
use leafy::VM;
use leafy::VMError;

#[test]
fn empty_program_is_terminated_at_once() {
    let mut vm = VM::new(Program::parse("").unwrap());
    assert_eq!(vm.run(10), Err(VMError::Terminated));
    assert_eq!(vm.step(), Err(VMError::Terminated));
}

#[test]
fn new_left_then_break_at_root() {
    // `+` creates a left child without moving the cursor; `?` succeeds at
    // the root and, with no enclosing loop, terminates the machine
    let mut vm = VM::new(Program::parse("+?").unwrap());
    assert_eq!(vm.run(10), Ok(true));
    let c = vm.tree();
    let root = c.root_stack()[0];
    assert_eq!(c.cursor(), root);
    let t = c.unrooted();
    let n = t.node(root);
    assert!(n.left().is_some());
    assert!(n.right().is_none());
    let child = n.left().unwrap();
    assert!(t.node(child).left().is_none());
    assert!(t.node(child).right().is_none());
}

#[test]
fn loop_with_failing_break_runs_once() {
    // the loop body moves left, creates a child and attempts Break, which
    // fails away from the root; the tail then exits after one iteration
    let mut vm = VM::new(Program::parse("+(<+?)").unwrap());
    assert_eq!(vm.run(100), Ok(true));
    let c = vm.tree();
    let root = c.root_stack()[0];
    let t = c.unrooted();
    // one iteration: the chain below the root is two nodes long
    assert_eq!(TreeView::new(t, root).count_left(), Some(2));
}

#[test]
fn loop_body_with_failing_tail_runs_exactly_once() {
    // `>` fails on a fresh single-node tree, so the loop body runs once:
    // head, one move attempt, tail — three steps, then termination
    let mut vm = VM::new(Program::parse("(>)").unwrap());
    assert_eq!(vm.step(), Ok(()));
    assert_eq!(vm.step(), Ok(()));
    assert_eq!(vm.step(), Ok(()));
    assert_eq!(vm.step(), Err(VMError::Terminated));
}

#[test]
fn loop_with_succeeding_tail_keeps_running() {
    // `+` always succeeds, so this loop never exits on its own: a bounded
    // run reports the budget ran out with the machine still going
    let mut vm = VM::new(Program::parse("(+)").unwrap());
    assert_eq!(vm.run(1000), Ok(false));
}

#[test]
fn break_inside_loop_resumes_after_tail() {
    // `{` makes the current node a root, so the `?` inside the loop
    // succeeds immediately and jumps past the tail, onto the final `*`
    let mut vm = VM::new(Program::parse("{(?)*").unwrap());
    assert_eq!(vm.run(100), Ok(true));
    let c = vm.tree();
    let root = c.root_stack()[0];
    let t = c.unrooted();
    assert!(t.node(root).right().is_some());
    assert!(t.node(root).left().is_none());
}

#[test]
fn move_failures_only_clear_the_flag() {
    let mut vm = VM::new(Program::parse("<>^-").unwrap());
    assert_eq!(vm.run(10), Ok(true));
    let c = vm.tree();
    let t = c.unrooted();
    assert_eq!(t.len(), 1);
}

#[test]
fn pop_root_underflow_is_fatal() {
    let mut vm = VM::new(Program::parse("}").unwrap());
    assert_eq!(vm.run(10), Err(VMError::RootStackUnderflow));
    // balanced scope text never trips it
    let mut vm2 = VM::new(Program::parse("{}").unwrap());
    assert_eq!(vm2.run(10), Ok(true));
}

#[test]
fn push_root_raises_success_flag() {
    // `{` always achieves its effect, so the flag is up at the tail even
    // though the `<` before it failed: the loop repeats (pushing one
    // boundary per round) until the step budget runs out
    let mut vm = VM::new(Program::parse("(<{)").unwrap());
    assert_eq!(vm.run(50), Ok(false));
    assert!(vm.tree().root_stack().len() > 1);
}

#[test]
fn delete_instruction_moves_up() {
    let mut vm = VM::new(Program::parse("+<-").unwrap());
    assert_eq!(vm.run(10), Ok(true));
    let c = vm.tree();
    let root = c.root_stack()[0];
    assert_eq!(c.cursor(), root);
    assert!(c.unrooted().node(root).left().is_none());
}

#[test]
fn program_accessor_reflects_source() {
    let prog = Program::parse("+?").unwrap();
    let vm = VM::new(prog.clone());
    assert_eq!(vm.program(), &prog);
}

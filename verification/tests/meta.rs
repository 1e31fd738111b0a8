use leafy::Inst;
use leafy::ParseError;
use leafy::ParseMetaVMError;
use leafy::Program;
use leafy::TreeCursor;
use leafy::VM;
use leafy::VMError;

/// Grows a pure left chain of `count` edges below the current position
/// and returns to where it started.
fn grow_unary(c: &mut TreeCursor, count: usize) {
    c.new_left();
    let mut depth = 1;
    for _ in 0..count {
        assert!(c.move_left());
        c.new_left();
        depth += 1;
    }
    for _ in 0..depth - 1 {
        assert!(c.move_up());
    }
}

/// Encodes a program given by its unary opcode counts, with the success
/// flag down and a single-node initial tree.
fn encode_program(counts: &[usize]) -> TreeCursor {
    let mut c = TreeCursor::new();
    // one instruction node per count: its left child heads the unary chain
    for &count in counts {
        grow_unary(&mut c, count);
        c.new_right();
        assert!(c.move_right());
    }
    // end marker, flag node (no left child: success = false), tree node
    c.new_right();
    assert!(c.move_right());
    c.new_right();
    assert!(c.move_right());
    c.new_left();
    // walk back to the outermost root
    while c.move_up() {}
    c
}

fn encode_single(count: usize) -> TreeCursor {
    encode_program(&[count])
}

#[test]
fn decode_single_break_runs_like_parsed_program() {
    let encoded = encode_single(10);
    let mut decoded = encoded.parse_meta_vm().unwrap();
    assert_eq!(decoded.program().insts(), &[Inst::Break]);

    let mut direct = VM::new(Program::parse("?").unwrap());
    assert_eq!(decoded.run(10), Ok(true));
    assert_eq!(direct.run(10), Ok(true));
    assert_eq!(decoded.run(10), Err(VMError::Terminated));
    assert_eq!(direct.run(10), Err(VMError::Terminated));

    // both final trees are a single node
    for vm in [&decoded, &direct] {
        let c = vm.tree();
        let root = c.root_stack()[0];
        let t = c.unrooted();
        assert!(t.node(root).left().is_none());
        assert!(t.node(root).right().is_none());
    }
}

#[test]
fn decode_is_independent_of_source() {
    let encoded = encode_single(0);  // a single NewLeft
    let decoded = encoded.parse_meta_vm().unwrap();
    assert_eq!(decoded.program().insts(), &[Inst::NewLeft]);
    // the decoded machine owns a separate single-node arena, not the
    // source tree
    assert_eq!(decoded.tree().unrooted().len(), 1);
    assert!(encoded.unrooted().len() > 1);
}

#[test]
fn decode_missing_continuation() {
    // a fresh tree's root has no right child at all
    let c = TreeCursor::new();
    assert_eq!(c.parse_meta_vm().unwrap_err(), ParseMetaVMError::MissingTree);
}

#[test]
fn decode_invalid_number() {
    // a right child interrupts the unary left-descent run
    let mut c = TreeCursor::new();
    c.new_left();
    assert!(c.move_left());
    c.new_right();
    assert!(c.move_up());
    c.new_right();
    while c.move_up() {}
    assert_eq!(c.parse_meta_vm().unwrap_err(), ParseMetaVMError::InvalidNumber(0));
}

#[test]
fn decode_invalid_opcode() {
    // unary count out of the opcode range
    let mut c = TreeCursor::new();
    grow_unary(&mut c, 11);
    c.new_right();
    while c.move_up() {}
    assert_eq!(c.parse_meta_vm().unwrap_err(), ParseMetaVMError::InvalidOpcode(0));
}

#[test]
fn decode_unclosed_loop_is_program_error() {
    // a single encoded LoopHead fails loop validation
    let mut c = TreeCursor::new();
    grow_unary(&mut c, 5);
    c.new_right();
    assert!(c.move_right());
    c.new_right();
    assert!(c.move_right());
    c.new_right();
    assert!(c.move_right());
    c.new_left();
    while c.move_up() {}
    assert_eq!(c.parse_meta_vm().unwrap_err(), ParseMetaVMError::ProgramError(ParseError::UnclosedLoop));
}

#[test]
fn decode_data_after_tree() {
    // the node after the success-flag node must have no right child
    let mut c = TreeCursor::new();
    grow_unary(&mut c, 10);
    c.new_right();
    assert!(c.move_right());
    c.new_right();
    assert!(c.move_right());
    c.new_right();
    assert!(c.move_right());
    c.new_left();
    c.new_right();
    while c.move_up() {}
    assert_eq!(c.parse_meta_vm().unwrap_err(), ParseMetaVMError::DataAfterTree);
}

#[test]
fn decode_missing_seed_subtree() {
    // the node after the flag node has no left child to seed the tree
    let mut c = TreeCursor::new();
    grow_unary(&mut c, 10);
    c.new_right();
    assert!(c.move_right());
    c.new_right();
    assert!(c.move_right());
    c.new_right();
    while c.move_up() {}
    assert_eq!(c.parse_meta_vm().unwrap_err(), ParseMetaVMError::MissingTree);
}

#[test]
fn decode_deep_copies_seed_tree() {
    // seed the new machine with a two-node tree: the seed node has one
    // left child
    let mut c = TreeCursor::new();
    grow_unary(&mut c, 10);
    c.new_right();
    assert!(c.move_right());
    c.new_right();
    assert!(c.move_right());
    c.new_right();
    assert!(c.move_right());
    c.new_left();
    assert!(c.move_left());
    c.new_left();
    while c.move_up() {}
    let vm = c.parse_meta_vm().unwrap();
    let t = vm.tree().unrooted();
    let root = vm.tree().root_stack()[0];
    assert_eq!(t.len(), 2);
    assert!(t.node(root).left().is_some());
    assert!(t.node(root).right().is_none());
    let child = t.node(root).left().unwrap();
    assert!(t.node(child).left().is_none());
    assert_eq!(t.node(child).parent(), Some(root));
}

#[test]
fn decode_accepts_raised_success_flag() {
    // flag node with a left child: decoded success flag up; the machine
    // still decodes to the same single-instruction program
    let mut c = TreeCursor::new();
    grow_unary(&mut c, 0);
    c.new_right();
    assert!(c.move_right());
    c.new_right();
    assert!(c.move_right());
    c.new_left();
    c.new_right();
    assert!(c.move_right());
    c.new_left();
    while c.move_up() {}
    let vm = c.parse_meta_vm().unwrap();
    assert_eq!(vm.program().insts(), &[Inst::NewLeft]);
    assert_eq!(vm.tree().unrooted().len(), 1);
}

#[test]
fn decode_two_instructions_matches_parsed_run() {
    // counts 0 and 10 spell NewLeft then Break
    let encoded = encode_program(&[0, 10]);
    let mut decoded = encoded.parse_meta_vm().unwrap();
    assert_eq!(decoded.program().insts(), &[Inst::NewLeft, Inst::Break]);

    let mut direct = VM::new(Program::parse("+?").unwrap());
    assert_eq!(decoded.run(10), Ok(true));
    assert_eq!(direct.run(10), Ok(true));
    for vm in [&decoded, &direct] {
        let c = vm.tree();
        let root = c.root_stack()[0];
        assert_eq!(c.cursor(), root);
        let t = c.unrooted();
        assert!(t.node(root).left().is_some());
        assert!(t.node(root).right().is_none());
        let child = t.node(root).left().unwrap();
        assert!(t.node(child).left().is_none());
        assert!(t.node(child).right().is_none());
    }
}

#[test]
fn decode_loop_program_resolves_targets() {
    // counts 5, 2, 6 spell LoopHead, MoveLeft, LoopTail, resolved on the way
    let encoded = encode_program(&[5, 2, 6]);
    let decoded = encoded.parse_meta_vm().unwrap();
    assert_eq!(
        decoded.program().insts(),
        &[Inst::LoopHead(2), Inst::MoveLeft, Inst::LoopTail]
    );
}

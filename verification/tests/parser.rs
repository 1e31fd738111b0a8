use leafy::Inst;
use leafy::ParseError;
use leafy::Program;

#[test]
fn parse_maps_every_symbol() {
    let p = Program::parse("<>^{}+*-?").unwrap();
    assert_eq!(
        p.insts(),
        &[
            Inst::MoveLeft,
            Inst::MoveRight,
            Inst::MoveUp,
            Inst::PushRoot,
            Inst::PopRoot,
            Inst::NewLeft,
            Inst::NewRight,
            Inst::Delete,
            Inst::Break,
        ]
    );
    assert_eq!(p.len(), 9);
}

#[test]
fn parse_ignores_comments() {
    let p = Program::parse("hello + world ?\n").unwrap();
    assert_eq!(p.insts(), &[Inst::NewLeft, Inst::Break]);
    let empty = Program::parse("no instructions at all").unwrap();
    assert_eq!(empty.len(), 0);
}

#[test]
fn parse_resolves_nested_loop_targets() {
    let p = Program::parse("(()())").unwrap();
    assert_eq!(
        p.insts(),
        &[
            Inst::LoopHead(5),
            Inst::LoopHead(2),
            Inst::LoopTail,
            Inst::LoopHead(4),
            Inst::LoopTail,
            Inst::LoopTail,
        ]
    );
}

#[test]
fn parse_excess_close_is_unopened_loop() {
    assert_eq!(Program::parse(")"), Err(ParseError::UnopenedLoop));
    assert_eq!(Program::parse("(()))("), Err(ParseError::UnopenedLoop));
}

#[test]
fn parse_excess_open_is_unclosed_loop() {
    assert_eq!(Program::parse("("), Err(ParseError::UnclosedLoop));
    assert_eq!(Program::parse("(()"), Err(ParseError::UnclosedLoop));
}

#[test]
fn from_insts_resolves_and_validates() {
    let p = Program::from_insts(vec![
        Inst::LoopHead(0),
        Inst::NewLeft,
        Inst::LoopTail,
    ])
    .unwrap();
    assert_eq!(
        p.insts(),
        &[Inst::LoopHead(2), Inst::NewLeft, Inst::LoopTail]
    );
    assert_eq!(
        Program::from_insts(vec![Inst::LoopTail]),
        Err(ParseError::UnopenedLoop)
    );
    assert_eq!(
        Program::from_insts(vec![Inst::LoopHead(7)]),
        Err(ParseError::UnclosedLoop)
    );
}

#[test]
fn round_trip_through_from_insts() {
    let p = Program::parse("+(<+?)-*(())").unwrap();
    let q = Program::from_insts(p.clone().into_insts()).unwrap();
    assert_eq!(p, q);
}

#[test]
fn program_get_and_len() {
    let p = Program::parse("+?").unwrap();
    assert_eq!(p.len(), 2);
    assert_eq!(p.get(0), Some(&Inst::NewLeft));
    assert_eq!(p.get(1), Some(&Inst::Break));
    assert_eq!(p.get(2), None);
}

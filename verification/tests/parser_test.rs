use brainfuck::lexer::lex;
use brainfuck::parser::{parse, Instruction};
use std::collections::HashMap;

#[test]
fn parse_simple_code() {
    let code = ">+-<";
    let tokens = lex(code).unwrap();
    let prog = parse(&tokens).unwrap();

    let insts = vec![
        Instruction::AddPtr(1),
        Instruction::Add(1),
        Instruction::Sub(1),
        Instruction::SubPtr(1),
    ];
    let lbr_pos: HashMap<usize, usize> = HashMap::new();
    let rbr_pos: HashMap<usize, usize> = HashMap::new();

    assert_eq!(prog.insts, insts);
    assert_eq!(prog.lbr_pos, lbr_pos);
    assert_eq!(prog.rbr_pos, rbr_pos);
}

#[test]
fn parse_complex_code() {
    let code = ">++++++[<++++++++>-].";
    let tokens = lex(code).unwrap();
    let prog = parse(&tokens).unwrap();

    let insts = vec![
        Instruction::AddPtr(1),
        Instruction::Add(6),
        Instruction::JumpToRBracket(0),
        Instruction::SubPtr(1),
        Instruction::Add(8),
        Instruction::AddPtr(1),
        Instruction::Sub(1),
        Instruction::JumpToLBracket(0),
        Instruction::Write,
    ];
    let mut lbr_pos: HashMap<usize, usize> = HashMap::new();
    let mut rbr_pos: HashMap<usize, usize> = HashMap::new();

    lbr_pos.insert(0, 2);
    rbr_pos.insert(0, 7);

    assert_eq!(prog.insts, insts);
    assert_eq!(prog.lbr_pos, lbr_pos);
    assert_eq!(prog.rbr_pos, rbr_pos);
}

#[test]
fn parse_bracket() {
    let code = "++[>++[>+++[>+<-]<-]<-]";
    let tokens = lex(code).unwrap();
    let prog = parse(&tokens).unwrap();

    let insts = vec![
        Instruction::Add(2),
        Instruction::JumpToRBracket(0),
        Instruction::AddPtr(1),
        Instruction::Add(2),
        Instruction::JumpToRBracket(1),
        Instruction::AddPtr(1),
        Instruction::Add(3),
        Instruction::JumpToRBracket(2),
        Instruction::AddPtr(1),
        Instruction::Add(1),
        Instruction::SubPtr(1),
        Instruction::Sub(1),
        Instruction::JumpToLBracket(2),
        Instruction::SubPtr(1),
        Instruction::Sub(1),
        Instruction::JumpToLBracket(1),
        Instruction::SubPtr(1),
        Instruction::Sub(1),
        Instruction::JumpToLBracket(0),
    ];
    let mut lbr_pos: HashMap<usize, usize> = HashMap::new();
    let mut rbr_pos: HashMap<usize, usize> = HashMap::new();

    lbr_pos.insert(0, 1);
    lbr_pos.insert(1, 4);
    lbr_pos.insert(2, 7);
    rbr_pos.insert(0, 18);
    rbr_pos.insert(1, 15);
    rbr_pos.insert(2, 12);

    assert_eq!(prog.insts, insts);
    assert_eq!(prog.lbr_pos, lbr_pos);
    assert_eq!(prog.rbr_pos, rbr_pos);
}

#[test]
fn unclosed_bracket() {
    let code = "[[[]]";
    let tokens = lex(code).unwrap();
    let prog = parse(&tokens);

    assert!(prog.is_err())
}

#[test]
fn stray_closing_bracket() {
    let tokens = lex("+]").unwrap();
    let prog = parse(&tokens);

    assert!(prog.is_err())
}

#[test]
fn long_run_splits_at_255() {
    let code = "+".repeat(300);
    let tokens = lex(&code).unwrap();
    let prog = parse(&tokens).unwrap();

    assert_eq!(prog.insts, vec![Instruction::Add(255), Instruction::Add(45)]);
}

#[test]
fn run_of_255_stays_one_instruction() {
    let code = "<".repeat(255);
    let tokens = lex(&code).unwrap();
    let prog = parse(&tokens).unwrap();

    assert_eq!(prog.insts, vec![Instruction::SubPtr(255)]);
}

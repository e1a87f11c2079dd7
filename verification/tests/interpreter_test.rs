use brainfuck::interpreter::{Interpreter, InterpreterError, RunError};
use brainfuck::lexer::LexError;
use brainfuck::parser::ParseError;

#[test]
fn run_simple_code_end_to_end() {
    let mut interp = Interpreter::new(2);
    let out = interp.run(">+-<", &Vec::new()).unwrap();

    assert_eq!(out, Vec::<u8>::new());
    assert_eq!(interp.pointer_index(), 0);
    assert_eq!(interp.tape_len(), 2);
    assert_eq!(interp.cell(0), 0);
    assert_eq!(interp.cell(1), 0);
}

#[test]
fn run_rejects_unclosed_bracket() {
    let mut interp = Interpreter::new(1);
    let r = interp.run("[[[]]", &Vec::new());

    assert_eq!(r, Err(RunError::Parse(ParseError::UnclosedBracket)));
}

#[test]
fn run_echoes_input() {
    let mut interp = Interpreter::new(1);
    let out = interp.run(",.", &vec![65]).unwrap();

    assert_eq!(out, vec![65]);
    assert_eq!(out[0] as char, 'A');
}

#[test]
fn run_passes_lex_error_through() {
    let mut interp = Interpreter::new(1);
    let r = interp.run("abc", &Vec::new());

    assert_eq!(r, Err(RunError::Lex(LexError::InvalidChar(0, 'a'))));
}

#[test]
fn cell_wraps_below_zero_and_back() {
    let mut interp = Interpreter::new(1);
    interp.run("-", &Vec::new()).unwrap();
    assert_eq!(interp.cell(0), 255);

    interp.run("+", &Vec::new()).unwrap();
    assert_eq!(interp.cell(0), 0);
}

#[test]
fn pointer_may_reach_last_cell() {
    let mut interp = Interpreter::new(2);
    interp.run(">", &Vec::new()).unwrap();

    assert_eq!(interp.pointer_index(), 1);
}

#[test]
fn pointer_past_end_is_memory_error() {
    let mut interp = Interpreter::new(2);
    let r = interp.run(">>", &Vec::new());

    assert_eq!(r, Err(RunError::Interpreter(InterpreterError::MemoryError)));
}

#[test]
fn pointer_below_zero_is_memory_error() {
    let mut interp = Interpreter::new(2);
    let r = interp.run("<", &Vec::new());

    assert_eq!(r, Err(RunError::Interpreter(InterpreterError::MemoryError)));
}

#[test]
fn read_without_input_is_an_error() {
    let mut interp = Interpreter::new(1);
    let r = interp.run(",", &Vec::new());

    assert_eq!(
        r,
        Err(RunError::Interpreter(InterpreterError::InputExhausted))
    );
}

#[test]
fn loops_run_until_cell_is_zero() {
    let mut interp = Interpreter::new(2);
    let out = interp.run(">++++++[<++++++++>-].", &Vec::new()).unwrap();

    assert_eq!(out, vec![0]);
    assert_eq!(interp.cell(0), 48);
    assert_eq!(interp.cell(1), 0);
    assert_eq!(interp.pointer_index(), 1);
}

#[test]
fn empty_loop_is_skipped_on_zero_cell() {
    let mut interp = Interpreter::new(1);
    let out = interp.run("[.]", &Vec::new()).unwrap();

    assert_eq!(out, Vec::<u8>::new());
}

//! A small esoteric-language interpreter, verified end to end: lexing source
//! text into tokens, parsing tokens into a jump-resolved instruction program,
//! and executing that program against a fixed-size byte tape.

pub mod lexer;
pub mod parser;
pub mod interpreter;

pub mod common;
pub mod lexer;
pub mod parser;
pub mod analyzer;
pub mod bytecode;
pub mod compiler;
pub mod interpreter;

pub mod ast;
pub mod text;
pub mod lexer;
pub mod set_parser;
pub mod parser;
pub mod rng;
pub mod generator;
pub mod harness;

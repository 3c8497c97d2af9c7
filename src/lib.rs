//! A small language for scripted HTTP assertions: a line-oriented lexer, a
//! recursive-descent parser that emits a flat instruction sequence, and a
//! stack machine that executes it one instruction at a time.
pub mod error;
pub mod lexer;
pub mod parser;
pub mod vm;

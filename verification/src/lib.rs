//! A miniature command-line shell core: a lexer, a grammar-aware parser,
//! a builtin command grammar, and an evaluator that turns one input line
//! into the effect the session must perform.
pub mod cli;
pub mod eval;
pub mod laws;
pub mod line;
pub mod parse;
pub mod scan;
pub mod session;
pub mod var;

//! A tiny expression compiler front end: a verified parser that turns an
//! arithmetic expression into an abstract syntax tree, and a verified
//! lowering pass that walks the tree and emits a linear instruction
//! sequence for a code-generation backend to assemble and run.

pub mod lower;
pub mod parser;
pub mod utils;

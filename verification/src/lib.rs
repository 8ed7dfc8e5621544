//! A small interpreter for a Lisp-family language: a reader that turns text
//! into a value tree, a chain of lexical scopes with shadowing and outward
//! lookup, a tree-walking evaluator with the special forms `def!` and `let*`,
//! and a printer. Every function's behaviour is stated in its contract and
//! verified.

pub mod env;
pub mod interp;
pub mod printers;
pub mod reader;
pub mod types;

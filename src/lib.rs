//! A tree-walking evaluator for a small imperative expression language with
//! numbers, strings, booleans, tuples, lexically scoped variables, conditionals
//! and while-loops.
pub mod number;
pub mod value;
pub mod render;
pub mod scope;
pub mod ast;
pub mod semantics;
pub mod interpreter;
pub mod laws;

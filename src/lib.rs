//! Compiles the syntax tree of a small Lisp-like synthesis language into a
//! dataflow graph of named nodes and argument-ordered edges.

pub mod ast;
pub mod dot;
pub mod graph;
pub mod merge;
pub mod model;
pub mod text;
pub mod theorems;

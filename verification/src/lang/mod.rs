//! A small prefix command language for exercising a tree: commands, value
//! generators (literal lists, ranges, pseudorandom values), arithmetic
//! expressions over loop indices, and nested repeat blocks.

pub mod ast;
pub mod error;
pub mod exec;
pub mod laws;
pub mod parser;
pub mod tree_ops;
pub mod tokens;

//! A HOCON parser and substitution resolver.
//!
//! `parser` turns text into a tree of [`value::Value`] nodes (objects, arrays, scalars, pending
//! substitutions and concatenations); `merge` holds the deep-merge rules applied while a document
//! is read; `resolve` replaces substitutions and concatenations by concrete values.

pub mod text;
pub mod assemble;
pub mod braced;
pub mod document;
pub mod inclusion;
pub mod keyed;
pub mod laws;
pub mod lexer;
pub mod merge;
pub mod parser;
pub mod resolve;
pub mod scalar;
pub mod tables;
pub mod value;


//! Core of a bytecode virtual machine for a small, dynamically typed,
//! Ruby-flavoured scripting language.
//!
//! The crate covers the pair at the heart of such an interpreter: a compiler
//! that lowers an abstract syntax tree into a flat, byte-encoded instruction
//! stream, and a stack machine that executes that stream over tagged dynamic
//! values.  Identifier interning, local-variable layout, the constant table
//! and the registry of built-in methods round the picture out.  A small-step
//! semantics of the instruction set stands beside the interpreter, which is
//! proved to return exactly what iterating that semantics yields.
//!
//! Source tokenization and parsing are outside collaborators: they hand the
//! compiler a finished tree together with a table of pre-numbered local
//! variables.  Output produced by the built-in printing methods is collected
//! in a byte buffer owned by the machine, so that the caller decides where it
//! goes.

pub mod codegen;
pub mod encoding;
pub mod error;
pub mod ident;
pub mod interp;
pub mod inst;
pub mod node;
pub mod semantics;
pub mod table;
pub mod value;
pub mod vm;

pub use value::Value;

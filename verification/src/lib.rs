//! Module resolution and compilation-unit assembly for a smart-contract
//! language frontend.
//!
//! The crate takes a set of parsed source modules, computes a valid semantic
//! analysis order over their import graph (diagnosing circular imports with a
//! concrete cycle), and, once modules are type-checked, merges their exported
//! functions and data types with a builtin table into a global qualified
//! symbol table, enumerates validator entry points in a deterministic order,
//! and assembles the immutable context handed to the downstream code
//! generator.

pub mod error;
pub mod graph;
pub mod parsed;
pub mod checked;
pub mod lex;
pub mod symbols;
pub mod context;

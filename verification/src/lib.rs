//! A compiler and tape-machine executor for a minimal eight-operator
//! language: source text is lexed and compiled into a flat, jump-resolved
//! instruction sequence (optionally shortened by a run-length peephole
//! optimizer), which a bounded-tape byte machine then executes.

use vstd::prelude::*;

pub mod compile_spec;
pub mod compiler;
pub mod equivalence;
pub mod laws;
pub mod optimizer;
pub mod render;
pub mod semantics;
pub mod vm;

verus! {

/// Run-time configuration for one compile-and-execute session.
pub struct Config {
    /// Source text, or the path the caller loaded it from.
    pub program: String,
    /// Number of byte cells on the machine's tape.
    pub cell_sz: usize,
    /// Whether `program` holds source text rather than a file path.
    pub inp_type: bool,
    /// Whether the peephole optimizer runs after compilation.
    pub optimize: bool,
}

} // verus!

//! An optimizing execution engine for a minimal tape-machine language of
//! eight single-character instructions. A parser filters the source into
//! operations; a first pass collapses additive and positional runs; a
//! second pass rewrites recognized loop idioms into bulk operations; three
//! interpreters — reference, high-level and low-level — share one tape
//! model and are each verified against a small-step machine; and an
//! emitter lays down native code words for the low-level form. The
//! branch-table, coalescing and loop-rewrite laws are proved alongside.

pub mod brackets;
pub mod hir;
pub mod jit;
pub mod lir;
pub mod parser;
pub mod state;
pub mod straightline;

use vstd::prelude::*;

verus! {

/// A fatal condition met while executing a program: the kinds of error that
/// the engine reports instead of running on.
#[derive(Debug, Clone, Copy, PartialEq, Eq)]
pub enum ExecError {
    /// A `[` at the given instruction index has no matching `]`.
    UnmatchedOpen(usize),
    /// A `]` at the given instruction index has no matching `[`.
    UnmatchedClose(usize),
    /// A move left was attempted at the origin; the instruction index is reported.
    PositionUnderflow(usize),
    /// A move right or a cell write was attempted at the highest machine
    /// position, which no backing store can hold.
    PositionOverflow(usize),
    /// An input instruction found the input stream exhausted.
    InputExhausted,
    /// The caller's step budget ran out before the program finished.
    StepLimit,
}

} // verus!

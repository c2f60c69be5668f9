//! Errors of the engine.
use vstd::prelude::*;

verus! {

/// What can go wrong while loading references or scoring a sample.
#[derive(Debug, Clone, Copy, PartialEq, Eq, Structural)]
pub enum LangError {
    /// Both operands of a compression ratio are empty, or the sample is empty.
    EmptyInput,
    /// The store holds no reference document.
    NoReferenceFiles,
    /// A reference document could not be read, or is larger than the engine takes.
    ReferenceLoadFailure,
}

} // verus!

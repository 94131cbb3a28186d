use vstd::prelude::*;

verus! {

/// The ways a source text can fail to compile.
#[derive(Debug, Clone, Copy, PartialEq, Eq, Structural)]
pub enum CompileErrorKind {
    /// A character outside the recognized set was found.
    UnknownCharacter,
    /// A `[` was never closed; reported at the position of the topmost open `[`.
    UnclosedLeftBracket,
    /// A `]` appeared with no `[` open; reported at its own position.
    UnexpectedRightBracket,
}

/// A compile failure, annotated with the 1-based source position it refers to.
#[derive(Debug, Clone, Copy, PartialEq, Eq, Structural)]
pub struct CompileError {
    pub line: usize,
    pub col: usize,
    pub kind: CompileErrorKind,
}

/// The ways a program can fail while running.
///
/// The interpreter in this crate works against in-memory byte buffers and so
/// only ever produces `PointerOverflow`; `Io` is the classification used by an
/// embedder whose input or output stream fails.
#[derive(Debug, Clone, Copy, PartialEq, Eq, Structural)]
pub enum RuntimeError {
    Io,
    PointerOverflow,
}

} // verus!

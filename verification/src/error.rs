//! What can go wrong when a grammar is compiled or a string is generated.

use vstd::prelude::*;

verus! {

/// Why a grammar was not compiled.
#[derive(Debug)]
pub enum CompileError {
    /// A name is referenced that no rule declares and that is not one of the
    /// well-known terminals.
    UnknownRule(String),
    /// A negative lookahead over something other than a literal string or
    /// `ASCII_ALPHA`.
    UnsupportedLookahead,
    /// The start symbol has no production.
    EmptyStartRule,
    /// A character range or a repetition whose lower bound is above its upper
    /// bound, or a repetition bound above the largest that is handled.
    InvalidBounds,
    /// The grammar needs more symbols than there are.
    TooManySymbols,
    /// A name that the compiler gives to a symbol stands for another symbol
    /// already, as where a rule is named like a generated symbol; or the
    /// symbol has a name already.
    NameTaken(String),
}

/// The mathematical value of a [`CompileError`].
pub enum CompileFault {
    UnknownRule(Seq<char>),
    UnsupportedLookahead,
    EmptyStartRule,
    InvalidBounds,
    TooManySymbols,
    NameTaken(Seq<char>),
}

impl View for CompileError {
    type V = CompileFault;

    open spec fn view(&self) -> CompileFault {
        match self {
            CompileError::UnknownRule(name) => CompileFault::UnknownRule(name@),
            CompileError::UnsupportedLookahead => CompileFault::UnsupportedLookahead,
            CompileError::EmptyStartRule => CompileFault::EmptyStartRule,
            CompileError::InvalidBounds => CompileFault::InvalidBounds,
            CompileError::TooManySymbols => CompileFault::TooManySymbols,
            CompileError::NameTaken(name) => CompileFault::NameTaken(name@),
        }
    }
}

/// Why no string was generated.
#[derive(Clone, Copy, Debug, PartialEq, Eq, Structural)]
pub enum GenError {
    /// The size ceiling, or the bound on derivation steps that goes with it,
    /// was reached before the derivation was complete.
    SizeLimitExceeded,
    /// A forbidden literal kept following its marker after every allowed
    /// re-draw.
    NegativeConstraintUnsatisfiable,
    /// The start name does not name a compiled nonterminal.
    UnknownStartRule,
}

} // verus!

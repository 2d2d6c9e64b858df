//! The grammar as the compiler receives it: named rules over expression trees.

use vstd::prelude::*;

verus! {

/// The type that a rule is declared with.
#[derive(Clone, Copy, Debug, PartialEq, Eq, Structural)]
pub enum RuleType {
    Normal,
    Silent,
    Atomic,
    CompoundAtomic,
    NonAtomic,
}

impl RuleType {
    /// Whether the parts of a sequence inside a rule of this type are
    /// separated by implicit whitespace: only in a rule declared non-atomic.
    pub open spec fn spec_splices_whitespace(self) -> bool {
        self is NonAtomic
    }

    #[verifier::when_used_as_spec(spec_splices_whitespace)]
    pub fn splices_whitespace(self) -> (b: bool)
        ensures
            b == self.spec_splices_whitespace(),
    {
        match self {
            RuleType::NonAtomic => true,
            RuleType::Normal
            | RuleType::Silent
            | RuleType::Atomic
            | RuleType::CompoundAtomic => false,
        }
    }
}

/// One node of a grammar expression.
pub enum Expr {
    /// An exact string.
    Str(String),
    /// An exact string that the parser matches without regard to ASCII case.
    Insens(String),
    /// One character between the two, both included.
    Range(char, char),
    /// The rule of this name.
    Ident(String),
    /// The first expression followed by the second.
    Sequence(Box<Expr>, Box<Expr>),
    /// Either expression, with the relative weights of the two if any were
    /// declared.
    Choice(Box<Expr>, Box<Expr>, Option<(u32, u32)>),
    /// The expression or nothing.
    Opt(Box<Expr>),
    /// The expression repeated at least `min` times and, where a maximum is
    /// given, at most that many times.
    Rep(Box<Expr>, u32, Option<u32>),
    /// Positive lookahead.
    PosPred(Box<Expr>),
    /// Negative lookahead.
    NegPred(Box<Expr>),
    /// A weight marker.
    Weight,
}

/// A named rule.
pub struct Rule {
    pub name: String,
    pub ty: RuleType,
    pub expr: Expr,
}

} // verus!

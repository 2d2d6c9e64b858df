//! Symbols and what the generator knows of each.

use vstd::prelude::*;

verus! {

/// What a symbol stands for when strings are derived.
#[derive(Clone, Copy, Debug, PartialEq, Eq, Structural)]
pub enum SymbolKind {
    /// Expanded through productions.
    Nonterminal,
    /// A terminal that emits nothing.
    Null,
    /// A terminal that emits this character.
    Single(char),
    /// A terminal that emits one character between the two, both included.
    Range(char, char),
}

/// A symbol handle together with its kind.
#[derive(Clone, Copy, Debug, PartialEq, Eq, Structural)]
pub struct SymbolWithKind {
    pub symbol: u32,
    pub kind: SymbolKind,
}

/// One row of the symbol table: the name kept for a symbol, the symbol and its
/// kind, and whether the name was interned as a rule name (only such rows are
/// found again by name).
pub struct SymbolEntry {
    pub name: String,
    pub sym: SymbolWithKind,
    pub interned: bool,
}

/// The mathematical value of a [`SymbolEntry`].
pub struct SymbolEntryView {
    pub name: Seq<char>,
    pub symbol: u32,
    pub kind: SymbolKind,
    pub interned: bool,
}

impl View for SymbolEntry {
    type V = SymbolEntryView;

    open spec fn view(&self) -> SymbolEntryView {
        SymbolEntryView {
            name: self.name@,
            symbol: self.sym.symbol,
            kind: self.sym.kind,
            interned: self.interned,
        }
    }
}

/// A marker symbol and one literal that may not follow it.
pub struct NegativeRuleMeta {
    pub neg: u32,
    pub chars: String,
}

impl View for NegativeRuleMeta {
    type V = (u32, Seq<char>);

    open spec fn view(&self) -> (u32, Seq<char>) {
        (self.neg, self.chars@)
    }
}

/// A character range remembered with the symbol interned for it.
#[derive(Clone, Copy, Debug, PartialEq, Eq, Structural)]
pub struct RangeEntry {
    pub lo: char,
    pub hi: char,
    pub symbol: u32,
}

/// The relative weights recorded for the two alternatives of a choice symbol,
/// and for each alternative whether it is the empty production, by which it
/// is told from the other wherever it stands among the productions.
#[derive(Clone, Copy, Debug, PartialEq, Eq, Structural)]
pub struct ChoiceWeights {
    pub symbol: u32,
    pub left: u32,
    pub right: u32,
    pub left_empty: bool,
    pub right_empty: bool,
}

} // verus!

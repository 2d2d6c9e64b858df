//! The grammar container of the `cfg` crate, and what this library assumes of it.
//!
//! Symbols cross this boundary as plain `u32` numbers and rules as
//! [`Production`] values. Nothing in this file is proved: each function's
//! contract states what the `cfg` source shows of the call in its body.

use cfg::prelude::{Cfg, GrammarRule, RuleContainer, RuleContainerRef, Symbol};
use crate::language::{chain_symbols, same_language};
use vstd::prelude::*;

verus! {

/// One rewrite rule: a left-hand symbol and the symbols that replace it.
pub struct Production {
    pub lhs: u32,
    pub rhs: Vec<u32>,
}

impl View for Production {
    type V = (u32, Seq<u32>);

    open spec fn view(&self) -> (u32, Seq<u32>) {
        (self.lhs, self.rhs@)
    }
}

/// The rules of a list of productions, as pairs of numbers.
pub open spec fn productions_view(s: Seq<Production>) -> Seq<(u32, Seq<u32>)> {
    s.map_values(|p: Production| p@)
}

/// The largest repetition bound that sequence rewriting handles.
pub const MAX_REPEAT: u32 = 0x8000_0000;

/// `cfg::prelude::Cfg`, opaque to the verifier.
#[verifier::external_type_specification]
#[verifier::external_body]
pub struct ExCfg(Cfg);

/// The number of symbols a grammar has handed out.
pub uninterp spec fn cfg_num_syms(g: Cfg) -> u32;

/// The rules of a grammar, in the order in which they were added.
pub uninterp spec fn cfg_rules(g: Cfg) -> Seq<(u32, Seq<u32>)>;

/// The sequence rules of a grammar that are not rewritten yet, each as
/// `(lhs, item, min, max)`.
pub uninterp spec fn cfg_sequences(g: Cfg) -> Seq<(u32, u32, u32, Option<u32>)>;

/// What `Cfg::rewrite_sequences` makes of a grammar's rules, sequence rules and
/// symbol count: the new rules and the new symbol count.
pub uninterp spec fn sequences_rewritten(
    rules: Seq<(u32, Seq<u32>)>,
    sequences: Seq<(u32, u32, u32, Option<u32>)>,
    num_syms: u32,
) -> (Seq<(u32, Seq<u32>)>, u32);

/// The rules that `Cfg::binarize` gives for a grammar's rules and symbol count.
pub uninterp spec fn binarized(rules: Seq<(u32, Seq<u32>)>, num_syms: u32) -> Seq<
    (u32, Seq<u32>),
>;

/// No symbol owns two empty productions.
pub open spec fn no_duplicate_nulling(rules: Seq<(u32, Seq<u32>)>) -> bool {
    forall|i: int, j: int|
        0 <= i < j < rules.len() && rules[i].1.len() == 0 && rules[j].1.len() == 0
            ==> rules[i].0 != rules[j].0
}

/// Every symbol of the rule is below `n`.
pub open spec fn rule_below(rule: (u32, Seq<u32>), n: int) -> bool {
    &&& rule.0 < n
    &&& forall|j: int| 0 <= j < rule.1.len() ==> #[trigger] rule.1[j] < n
}

/// Every symbol of every rule is below `n`.
pub open spec fn symbols_below(rules: Seq<(u32, Seq<u32>)>, n: int) -> bool {
    forall|i: int| 0 <= i < rules.len() ==> rule_below(#[trigger] rules[i], n)
}

/// Every sequence rule repeats between `min` and `max` times with
/// `min <= max <= MAX_REPEAT`.
pub open spec fn bounds_ordered(sequences: Seq<(u32, u32, u32, Option<u32>)>) -> bool {
    forall|i: int|
        0 <= i < sequences.len() ==> {
            let s = #[trigger] sequences[i];
            &&& s.2 <= MAX_REPEAT
            &&& s.3 matches Some(max) ==> s.2 <= max && max <= MAX_REPEAT
        }
}

/// `Cfg::new`: a grammar without symbols, rules or sequence rules.
#[verifier::external_body]
pub(crate) fn new_grammar() -> (g: Cfg)
    ensures
        cfg_num_syms(g) == 0,
        cfg_rules(g) == Seq::<(u32, Seq<u32>)>::empty(),
        cfg_sequences(g) == Seq::<(u32, u32, u32, Option<u32>)>::empty(),
{
    Cfg::new()
}

/// `Cfg::num_syms`: how many symbols the grammar has handed out.
#[verifier::external_body]
pub(crate) fn symbol_count(g: &Cfg) -> (n: u32)
    ensures
        n == cfg_num_syms(*g),
{
    g.num_syms() as u32
}

/// `Cfg::sym` for one symbol: it returns the symbol whose number is the
/// count so far and raises the count by one, except that the count stays at
/// `u32::MAX` once it is there. Rules and sequence rules are untouched.
#[verifier::external_body]
pub(crate) fn fresh_symbol(g: &mut Cfg) -> (s: u32)
    ensures
        s == cfg_num_syms(*old(g)),
        cfg_num_syms(*final(g)) == if s < u32::MAX {
            (s + 1) as u32
        } else {
            s
        },
        cfg_rules(*final(g)) == cfg_rules(*old(g)),
        cfg_sequences(*final(g)) == cfg_sequences(*old(g)),
{
    let s: Symbol = g.sym();
    s.into()
}

/// `RuleContainer::rule` followed by `RuleBuilder::rhs`: the rule
/// `lhs ::= rhs` is appended to the grammar's rules; nothing else changes.
#[verifier::external_body]
pub(crate) fn push_rule(g: &mut Cfg, lhs: u32, rhs: &Vec<u32>)
    ensures
        cfg_rules(*final(g)) == cfg_rules(*old(g)).push((lhs, rhs@)),
        cfg_num_syms(*final(g)) == cfg_num_syms(*old(g)),
        cfg_sequences(*final(g)) == cfg_sequences(*old(g)),
{
    let rhs: Vec<Symbol> = rhs.iter().map(|&s| Symbol::from(s)).collect();
    g.rule(Symbol::from(lhs)).rhs(rhs);
}

/// `Cfg::sequence` followed by `SequenceRuleBuilder::inclusive` and `rhs`:
/// the sequence rule "`lhs` is `item` repeated `min` to `max` times", without a
/// separator, is appended to the pending sequence rules; nothing else changes.
#[verifier::external_body]
pub(crate) fn push_sequence(g: &mut Cfg, lhs: u32, item: u32, min: u32, max: Option<u32>)
    ensures
        cfg_sequences(*final(g)) == cfg_sequences(*old(g)).push((lhs, item, min, max)),
        cfg_num_syms(*final(g)) == cfg_num_syms(*old(g)),
        cfg_rules(*final(g)) == cfg_rules(*old(g)),
{
    g.sequence(Symbol::from(lhs)).inclusive(min, max).rhs(Symbol::from(item));
}

/// `Cfg::rewrite_sequences`: the pending sequence rules become ordinary rules
/// over fresh symbols and none is left pending. Which rules and how many
/// symbols is a function of the rules, sequence rules and symbol count before
/// the call; the rewriting only appends rules and only takes symbols, so the
/// rules of before stand first among the new and the count does not shrink.
/// The rewriting panics on a sequence rule with `min > max` and overflows on
/// bounds above `MAX_REPEAT`, so both are required away.
#[verifier::external_body]
pub(crate) fn rewrite_sequences(g: &mut Cfg)
    requires
        bounds_ordered(cfg_sequences(*old(g))),
    ensures
        (cfg_rules(*final(g)), cfg_num_syms(*final(g))) == sequences_rewritten(
            cfg_rules(*old(g)),
            cfg_sequences(*old(g)),
            cfg_num_syms(*old(g)),
        ),
        cfg_sequences(*final(g)) == Seq::<(u32, u32, u32, Option<u32>)>::empty(),
        cfg_rules(*old(g)).is_prefix_of(cfg_rules(*final(g))),
        cfg_num_syms(*old(g)) <= cfg_num_syms(*final(g)),
{
    g.rewrite_sequences();
}

/// `RuleContainerRef::rules` on a grammar: its rules in order.
#[verifier::external_body]
pub(crate) fn rules_of(g: &Cfg) -> (r: Vec<Production>)
    ensures
        productions_view(r@) == cfg_rules(*g),
{
    g.rules().map(
        |rule| Production { lhs: rule.lhs().into(), rhs: rule.rhs().iter().map(|&s| s.into()).collect() },
    ).collect()
}

/// `Cfg::binarize`, and `RuleContainerRef::rules` on what it returns: the rules
/// of the binarized grammar, a function of the grammar's rules and symbol
/// count, each with at most two symbols on its right-hand side. The crate
/// documents the result as weakly equivalent to the grammar: every symbol of
/// the grammar derives the same words of terminals as before. That holds as
/// long as the symbols for the chains, one for each right-hand symbol beyond
/// two, are there to take. Binarizing panics where one symbol owns two empty
/// productions, and it also rewrites pending sequence rules, so the grammar
/// must hold neither.
#[verifier::external_body]
pub(crate) fn binarize(g: &Cfg) -> (r: Vec<Production>)
    requires
        cfg_sequences(*g).len() == 0,
        no_duplicate_nulling(cfg_rules(*g)),
        symbols_below(cfg_rules(*g), cfg_num_syms(*g) as int),
    ensures
        productions_view(r@) == binarized(cfg_rules(*g), cfg_num_syms(*g)),
        forall|i: int| 0 <= i < r@.len() ==> (#[trigger] r@[i]).rhs@.len() <= 2,
        cfg_num_syms(*g) + chain_symbols(cfg_rules(*g), cfg_rules(*g).len() as int) <= u32::MAX
            ==> same_language(cfg_rules(*g), productions_view(r@), cfg_num_syms(*g) as int),
{
    let b = g.binarize();
    b.rules().map(
        |rule| Production { lhs: rule.lhs().into(), rhs: rule.rhs().iter().map(|&s| s.into()).collect() },
    ).collect()
}

} // verus!

//! A compiled grammar, ready to generate.

use crate::derivation::{markers, Derivation, Tables};
use crate::error::{CompileError, CompileFault, GenError};
use crate::expr::Rule;
use crate::generator::{
    find_any_name, find_symbol, lemma_find_any_name_stable, Generator, GeneratorView,
};
use crate::grammar::{productions_view, Production};
use crate::language::same_language;
use crate::normalize::{chains_fit, normalize, normalized, rule_span};
use crate::rules::{index_keys, indexes, key_span, lemma_max_key_bounds, owners, owners_of, span_of};
use crate::symbol::{ChoiceWeights, NegativeRuleMeta, SymbolEntry, SymbolEntryView, SymbolKind};
use crate::text::{chars_of, string_of};
use vstd::prelude::*;
use vstd::string::StringExecFns;

verus! {

/// The symbols of the rows of a symbol table.
pub open spec fn row_symbols(syms: Seq<SymbolEntryView>) -> Seq<u32> {
    syms.map_values(|e: SymbolEntryView| e.symbol)
}

/// The kinds of the symbols below `n`, each as its first row among the first
/// `k` rows of the table gives it.
pub open spec fn kinds_cover(kinds: Seq<SymbolKind>, syms: Seq<SymbolEntryView>, k: int) -> bool {
    forall|s: int|
        0 <= s < kinds.len() ==> #[trigger] kinds[s] == match find_symbol(syms, s as u32, k) {
            Some(i) => syms[i].kind,
            None => SymbolKind::Nonterminal,
        }
}

/// A grammar compiled for generation: its normalized productions, its symbol
/// table and its negative constraints, each with the index that the engine
/// looks things up in.
pub struct NoirParser {
    pub(crate) rules: Vec<Production>,
    pub(crate) alternatives: Vec<Vec<usize>>,
    pub(crate) syms: Vec<SymbolEntry>,
    pub(crate) kinds: Vec<SymbolKind>,
    pub(crate) negative_rules: Vec<NegativeRuleMeta>,
    pub(crate) literals: Vec<Vec<char>>,
    pub(crate) constraints: Vec<Vec<usize>>,
    pub(crate) reach: usize,
    pub(crate) weights: Vec<ChoiceWeights>,
}

impl View for NoirParser {
    type V = Tables;

    closed spec fn view(&self) -> Tables {
        Tables {
            rules: productions_view(self.rules@),
            syms: self.syms@.map_values(|e: SymbolEntry| e@),
            negative_rules: self.negative_rules@.map_values(|r: NegativeRuleMeta| r@),
            weights: self.weights@,
        }
    }
}

impl NoirParser {
    /// The indexes say what the tables say.
    #[verifier::type_invariant]
    pub closed spec fn wf(&self) -> bool {
        &&& self.alternatives@.len() == key_span(owners(self@.rules))
        &&& indexes(self.alternatives@, owners(self@.rules))
        &&& self.kinds@.len() == key_span(row_symbols(self@.syms))
        &&& kinds_cover(self.kinds@, self@.syms, self@.syms.len() as int)
        &&& self.constraints@.len() == key_span(markers(self@.negative_rules))
        &&& indexes(self.constraints@, markers(self@.negative_rules))
        &&& self.literals@.len() == self.negative_rules@.len()
        &&& forall|i: int|
            0 <= i < self.literals@.len() ==> (#[trigger] self.literals@[i])@
                == self.negative_rules@[i].chars@
        &&& forall|i: int|
            0 <= i < self.literals@.len() ==> (#[trigger] self.literals@[i])@.len()
                <= self.reach
    }

    /// What the view and the invariant say, for the engine.
    pub(crate) proof fn lemma_tables(&self)
        requires
            self.wf(),
        ensures
            self@.rules == productions_view(self.rules@),
            self@.syms == self.syms@.map_values(|e: SymbolEntry| e@),
            self@.negative_rules == self.negative_rules@.map_values(|r: NegativeRuleMeta| r@),
            self@.weights == self.weights@,
            self.alternatives@.len() == key_span(owners(self@.rules)),
            indexes(self.alternatives@, owners(self@.rules)),
            self.kinds@.len() == key_span(row_symbols(self@.syms)),
            kinds_cover(self.kinds@, self@.syms, self@.syms.len() as int),
            self.constraints@.len() == key_span(markers(self@.negative_rules)),
            indexes(self.constraints@, markers(self@.negative_rules)),
            self.literals@.len() == self.negative_rules@.len(),
            forall|i: int|
                0 <= i < self.literals@.len() ==> (#[trigger] self.literals@[i])@
                    == self@.negative_rules[i].1,
            forall|i: int|
                0 <= i < self@.negative_rules.len() ==> (#[trigger] self@.negative_rules[i]).1.len()
                    <= self.reach,
    {
        assert forall|i: int| 0 <= i < self@.negative_rules.len() implies (
        #[trigger] self@.negative_rules[i]).1.len() <= self.reach by {
            assert(self.literals@[i]@ == self@.negative_rules[i].1);
        }
    }
}

/// The symbol that `name` stands for in a symbol table: that of the first
/// row with this name.
pub open spec fn start_symbol(syms: Seq<SymbolEntryView>, name: Seq<char>) -> Option<u32> {
    match find_any_name(syms, name, syms.len() as int) {
        Some(i) => Some(syms[i].symbol),
        None => None,
    }
}

/// Whether every production has at most two symbols on its right-hand side.
pub open spec fn binary(rules: Seq<(u32, Seq<u32>)>) -> bool {
    forall|i: int| 0 <= i < rules.len() ==> (#[trigger] rules[i]).1.len() <= 2
}

/// The tables, unless one of the numbers that the engine looks things up by
/// is `u32::MAX`.
pub open spec fn assembled(t: Tables) -> Result<Tables, CompileFault> {
    if key_span(owners(t.rules)) > u32::MAX || key_span(row_symbols(t.syms)) > u32::MAX
        || key_span(markers(t.negative_rules)) > u32::MAX {
        Err(CompileFault::TooManySymbols)
    } else {
        Ok(t)
    }
}

/// What compiling a list of rules gives: the rules are compiled in order,
/// the repetitions rewritten, the terminals classified and the productions
/// normalized.
pub open spec fn compiled(rules: Seq<Rule>) -> Result<Tables, CompileFault> {
    match GeneratorView::empty().process_rules(rules, 0) {
        Err(e) => Err(e),
        Ok(v1) => match v1.rewrite_sequences().update_chars() {
            Err(e) => Err(e),
            Ok(v2) => match normalized(v2.rules) {
                Err(e) => Err(e),
                Ok(productions) => assembled(
                    Tables {
                        rules: productions,
                        syms: v2.syms,
                        negative_rules: v2.negative_rules,
                        weights: v2.weights,
                    },
                ),
            },
        },
    }
}

/// The productions that a list of rules compiles to before normalization, and
/// none where the rules do not compile that far.
pub open spec fn compiled_productions(rules: Seq<Rule>) -> Seq<(u32, Seq<u32>)> {
    match GeneratorView::empty().process_rules(rules, 0) {
        Err(_) => Seq::empty(),
        Ok(v1) => match v1.rewrite_sequences().update_chars() {
            Err(_) => Seq::empty(),
            Ok(v2) => v2.rules,
        },
    }
}

/// Whether normalization was transparent for the grammar `t` compiled from
/// `rules`: every symbol of the productions before normalization derives
/// from the productions of `t` the words of terminals that it derived before,
/// and no other.
pub open spec fn transparent(rules: Seq<Rule>, t: Tables) -> bool {
    let before = compiled_productions(rules);
    same_language(before, t.rules, rule_span(before, before.len() as int))
}

/// What compiling a list of rules for the start rule `start` gives: the
/// compiled grammar, if `start` names a nonterminal of it that owns a
/// production.
pub open spec fn compiled_for(rules: Seq<Rule>, start: Seq<char>) -> Result<
    Tables,
    CompileFault,
> {
    match compiled(rules) {
        Err(e) => Err(e),
        Ok(t) => if t.starts_at(start) is Some {
            Ok(t)
        } else {
            Err(CompileFault::EmptyStartRule)
        },
    }
}

impl Tables {
    /// The symbol from which a derivation for the rule `name` starts, if
    /// `name` names a nonterminal that owns a production.
    pub open spec fn starts_at(self, name: Seq<char>) -> Option<u32> {
        match start_symbol(self.syms, name) {
            Some(s) => if self.can_start(s) {
                Some(s)
            } else {
                None
            },
            None => None,
        }
    }

    /// What generating from the rule `name` gives: the derivation from its
    /// symbol, and `UnknownStartRule` where `name` names no nonterminal that
    /// owns a production.
    pub open spec fn generate(self, name: Seq<char>, buffer: Seq<u8>, limit: Option<u64>) -> Result<
        Derivation,
        GenError,
    > {
        match self.starts_at(name) {
            Some(s) => self.derive(s, buffer, limit),
            None => Err(GenError::UnknownStartRule),
        }
    }
}

/// The symbols of the rows of a symbol table.
fn symbols_of(syms: &Vec<SymbolEntry>) -> (keys: Vec<u32>)
    ensures
        keys@ == row_symbols(syms@.map_values(|e: SymbolEntry| e@)),
{
    let mut keys: Vec<u32> = Vec::new();
    let mut k: usize = 0;
    while k < syms.len()
        invariant
            k <= syms.len(),
            keys@.len() == k,
            forall|i: int| 0 <= i < k ==> keys@[i] == syms@[i].sym.symbol,
        decreases syms.len() - k,
    {
        keys.push(syms[k].sym.symbol);
        k += 1;
    }
    assert(keys@ =~= row_symbols(syms@.map_values(|e: SymbolEntry| e@)));
    keys
}

/// The markers of a list of negative constraints.
fn markers_of(negative_rules: &Vec<NegativeRuleMeta>) -> (keys: Vec<u32>)
    ensures
        keys@ == markers(negative_rules@.map_values(|r: NegativeRuleMeta| r@)),
{
    let mut keys: Vec<u32> = Vec::new();
    let mut k: usize = 0;
    while k < negative_rules.len()
        invariant
            k <= negative_rules.len(),
            keys@.len() == k,
            forall|i: int| 0 <= i < k ==> keys@[i] == negative_rules@[i].neg,
        decreases negative_rules.len() - k,
    {
        keys.push(negative_rules[k].neg);
        k += 1;
    }
    assert(keys@ =~= markers(negative_rules@.map_values(|r: NegativeRuleMeta| r@)));
    keys
}

/// The length of the longest of the literals.
fn longest(literals: &Vec<Vec<char>>) -> (reach: usize)
    ensures
        forall|i: int| 0 <= i < literals@.len() ==> (#[trigger] literals@[i])@.len() <= reach,
{
    let mut reach: usize = 0;
    let mut k: usize = 0;
    while k < literals.len()
        invariant
            k <= literals.len(),
            forall|i: int| 0 <= i < k ==> (#[trigger] literals@[i])@.len() <= reach,
        decreases literals.len() - k,
    {
        if literals[k].len() > reach {
            reach = literals[k].len();
        }
        k += 1;
    }
    reach
}

/// The characters of each forbidden literal.
fn literals_of_rules(negative_rules: &Vec<NegativeRuleMeta>) -> (literals: Vec<Vec<char>>)
    ensures
        literals@.len() == negative_rules@.len(),
        forall|i: int|
            0 <= i < literals@.len() ==> (#[trigger] literals@[i])@ == negative_rules@[i].chars@,
{
    let mut literals: Vec<Vec<char>> = Vec::new();
    let mut k: usize = 0;
    while k < negative_rules.len()
        invariant
            k <= negative_rules.len(),
            literals@.len() == k,
            forall|i: int|
                0 <= i < k ==> (#[trigger] literals@[i])@ == negative_rules@[i].chars@,
        decreases negative_rules.len() - k,
    {
        literals.push(chars_of(&negative_rules[k].chars));
        k += 1;
    }
    literals
}

/// The kind of each symbol below `n`, as its first row in the table gives it.
fn kinds_of(syms: &Vec<SymbolEntry>, n: usize) -> (kinds: Vec<SymbolKind>)
    requires
        n == key_span(row_symbols(syms@.map_values(|e: SymbolEntry| e@))),
        n <= u32::MAX,
    ensures
        kinds@.len() == n,
        kinds_cover(kinds@, syms@.map_values(|e: SymbolEntry| e@), syms@.len() as int),
{
    let ghost view = syms@.map_values(|e: SymbolEntry| e@);
    let mut kinds: Vec<SymbolKind> = Vec::new();
    let mut seen: Vec<bool> = Vec::new();
    let mut s: usize = 0;
    while s < n
        invariant
            s <= n,
            kinds@.len() == s,
            seen@.len() == s,
            forall|t: int| 0 <= t < s ==> #[trigger] kinds@[t] == SymbolKind::Nonterminal,
            forall|t: int| 0 <= t < s ==> !(#[trigger] seen@[t]),
        decreases n - s,
    {
        kinds.push(SymbolKind::Nonterminal);
        seen.push(false);
        s += 1;
    }
    proof {
        lemma_max_key_bounds(row_symbols(view), view.len() as int);
    }
    let mut j: usize = 0;
    while j < syms.len()
        invariant
            j <= syms.len(),
            view == syms@.map_values(|e: SymbolEntry| e@),
            forall|i: int| 0 <= i < view.len() ==> (#[trigger] row_symbols(view)[i]) < n,
            n <= u32::MAX,
            kinds@.len() == n,
            seen@.len() == n,
            kinds_cover(kinds@, view, j as int),
            forall|t: int|
                0 <= t < n ==> (#[trigger] seen@[t]) == (find_symbol(view, t as u32, j as int)
                    is Some),
        decreases syms.len() - j,
    {
        let entry = &syms[j];
        let sym = entry.sym.symbol as usize;
        assert(view[j as int] == entry@);
        assert(row_symbols(view)[j as int] == entry.sym.symbol);
        let ghost kinds_before = kinds@;
        let ghost seen_before = seen@;
        if !seen[sym] {
            kinds.set(sym, entry.sym.kind);
            seen.set(sym, true);
        }
        proof {
            assert forall|t: int| 0 <= t < n implies (#[trigger] seen@[t]) == (find_symbol(
                view,
                t as u32,
                j + 1,
            ) is Some) by {
                assert(seen_before[t] == (find_symbol(view, t as u32, j as int) is Some));
            }
            assert forall|t: int| 0 <= t < kinds@.len() implies #[trigger] kinds@[t]
                == match find_symbol(view, t as u32, j + 1) {
                Some(i) => view[i].kind,
                None => SymbolKind::Nonterminal,
            } by {
                assert(seen_before[t] == (find_symbol(view, t as u32, j as int) is Some));
                assert(kinds_before[t] == match find_symbol(view, t as u32, j as int) {
                    Some(i) => view[i].kind,
                    None => SymbolKind::Nonterminal,
                });
            }
        }
        j += 1;
    }
    kinds
}

impl NoirParser {
    /// Puts the indexes to the tables.
    fn assemble(
        rules: Vec<Production>,
        syms: Vec<SymbolEntry>,
        negative_rules: Vec<NegativeRuleMeta>,
        weights: Vec<ChoiceWeights>,
    ) -> (r: Result<NoirParser, CompileError>)
        ensures
            match assembled(
                Tables {
                    rules: productions_view(rules@),
                    syms: syms@.map_values(|e: SymbolEntry| e@),
                    negative_rules: negative_rules@.map_values(|r: NegativeRuleMeta| r@),
                    weights: weights@,
                },
            ) {
                Ok(t) => r is Ok && r->Ok_0@ == t,
                Err(e) => r is Err && r->Err_0@ == e,
            },
    {
        let owners = owners_of(&rules);
        let alternatives = match span_of(&owners) {
            Some(n) => index_keys(&owners, n),
            None => {
                return Err(CompileError::TooManySymbols);
            },
        };
        let symbols = symbols_of(&syms);
        let kinds = match span_of(&symbols) {
            Some(n) => kinds_of(&syms, n),
            None => {
                return Err(CompileError::TooManySymbols);
            },
        };
        let markers = markers_of(&negative_rules);
        let constraints = match span_of(&markers) {
            Some(n) => index_keys(&markers, n),
            None => {
                return Err(CompileError::TooManySymbols);
            },
        };
        let literals = literals_of_rules(&negative_rules);
        let reach = longest(&literals);
        Ok(
            NoirParser {
                rules,
                alternatives,
                syms,
                kinds,
                negative_rules,
                literals,
                constraints,
                reach,
                weights,
            },
        )
    }

    /// Compiles `rules` for generation.
    ///
    /// The rules are compiled in order, the repetitions rewritten, the
    /// terminals classified and the productions normalized. Compilation fails
    /// with the first fault met on the way. Normalization is transparent as
    /// long as the symbols for its chains are there to take.
    pub fn compile(rules: &Vec<Rule>) -> (r: Result<NoirParser, CompileError>)
        ensures
            match compiled(rules@) {
                Ok(t) => r is Ok && r->Ok_0@ == t,
                Err(e) => r is Err && r->Err_0@ == e,
            },
            r is Ok ==> binary(r->Ok_0@.rules),
            r is Ok && chains_fit(compiled_productions(rules@)) ==> transparent(
                rules@,
                r->Ok_0@,
            ),
    {
        let mut generator = Generator::new();
        generator.process_rules(rules)?;
        generator.rewrite_sequences();
        generator.update_chars()?;
        let productions = normalize(&generator.rules())?;
        proof {
            let view = productions_view(productions@);
            assert forall|i: int| 0 <= i < view.len() implies (#[trigger] view[i]).1.len()
                <= 2 by {
                assert(view[i] == productions@[i]@);
            }
        }
        let (syms, negative_rules, weights) = generator.into_tables();
        Self::assemble(productions, syms, negative_rules, weights)
    }

    /// Compiles `rules` for generation from the rule named `start`. Besides
    /// the faults of compilation, a start name that names no nonterminal with
    /// a production is a fault.
    pub fn new(rules: &Vec<Rule>, start: &str) -> (r: Result<NoirParser, CompileError>)
        ensures
            match compiled_for(rules@, start@) {
                Ok(t) => r is Ok && r->Ok_0@ == t,
                Err(e) => r is Err && r->Err_0@ == e,
            },
            r is Ok ==> binary(r->Ok_0@.rules),
            r is Ok && chains_fit(compiled_productions(rules@)) ==> transparent(
                rules@,
                r->Ok_0@,
            ),
    {
        let parser = Self::compile(rules)?;
        match parser.start_of(start) {
            Some(_) => Ok(parser),
            None => Err(CompileError::EmptyStartRule),
        }
    }

    /// The symbol from which a derivation for the rule `name` starts.
    pub fn start_of(&self, name: &str) -> (r: Option<u32>)
        ensures
            r == self@.starts_at(name@),
    {
        proof {
            use_type_invariant(self);
            self.lemma_tables();
        }
        let wanted = String::from_str(name);
        let mut i: usize = 0;
        let mut found: Option<u32> = None;
        while i < self.syms.len() && found.is_none()
            invariant
                i <= self.syms.len(),
                wanted@ == name@,
                self@.syms == self.syms@.map_values(|e: SymbolEntry| e@),
                match found {
                    Some(s) => start_symbol(self@.syms, name@) == Some(s),
                    None => find_any_name(self@.syms, name@, i as int) is None,
                },
            decreases self.syms.len() - i + if found is None { 1int } else { 0int },
        {
            if self.syms[i].name == wanted {
                proof {
                    lemma_find_any_name_stable(
                        self@.syms,
                        name@,
                        i + 1,
                        self@.syms.len() as int,
                    );
                }
                found = Some(self.syms[i].sym.symbol);
            } else {
                i += 1;
            }
        }
        match found {
            None => None,
            Some(s) => {
                let owns = match self.alternatives_row(s) {
                    Some(row) => row.len() > 0,
                    None => false,
                };
                if owns && self.kind(s) == SymbolKind::Nonterminal {
                    Some(s)
                } else {
                    None
                }
            },
        }
    }

    /// Derives a string from the rule named `start_sym`, with every choice
    /// driven by the bytes of `driver`, and with at most `limit` characters
    /// where a limit is given. The same arguments always give the same
    /// result.
    pub fn generate(&self, start_sym: &str, driver: &[u8], limit: Option<u64>) -> (r: Result<
        String,
        GenError,
    >)
        ensures
            match self@.generate(start_sym@, driver@, limit) {
                Ok(d) => r is Ok && r->Ok_0@ == d.text,
                Err(e) => r == Err::<String, GenError>(e),
            },
    {
        match self.start_of(start_sym) {
            None => Err(GenError::UnknownStartRule),
            Some(start) => match self.derive(start, driver, limit) {
                Ok(text) => Ok(string_of(&text)),
                Err(e) => Err(e),
            },
        }
    }
}

} // verus!

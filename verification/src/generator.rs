//! The grammar compiler: from rules over expression trees to productions over
//! numbered symbols, with the symbol table and the negative constraints that
//! go with them.

use crate::compile_laws::{
    lemma_add_rule_extends, lemma_adds_rows_extends, lemma_decl_negative_rules_marks, lemma_decl_rules_renders, lemma_intern_chars_extends,
    lemma_intern_ident_extends, lemma_order_is_one_to_one, lemma_process_expr_extends, lemma_process_rule_extends,
    lemma_process_rules_extends, lemma_update_chars_classifies,
};
use crate::error::{CompileError, CompileFault};
use crate::expr::{Expr, Rule, RuleType};
use crate::grammar::{
    bounds_ordered, cfg_num_syms, cfg_rules, cfg_sequences, fresh_symbol, new_grammar,
    productions_view, push_rule, push_sequence, rewrite_sequences, rules_of,
    sequences_rewritten, symbol_count, Production, MAX_REPEAT,
};
use crate::rules::{alternatives_of, index_rules, is_terminal, owns_production, row_view};
use crate::names::{name_before, name_lt, numbered, numbered_name};
use crate::text::char_string;
use crate::symbol::{
    ChoiceWeights, NegativeRuleMeta, RangeEntry, SymbolEntry, SymbolEntryView, SymbolKind,
    SymbolWithKind,
};
use cfg::prelude::Cfg;
use vstd::prelude::*;
use vstd::string::StringExecFns;

verus! {

/// The compiler's state: the grammar under construction, the symbol table, the
/// character ranges interned so far, the negative constraints and the weights
/// of weighted choices.
pub struct Generator {
    grammar: Cfg,
    syms: Vec<SymbolEntry>,
    syms_by_range: Vec<RangeEntry>,
    negative_rules: Vec<NegativeRuleMeta>,
    weights: Vec<ChoiceWeights>,
}

/// The mathematical value of a [`Generator`].
pub struct GeneratorView {
    /// How many symbols exist; the next fresh symbol has this number.
    pub num_syms: u32,
    /// The productions, in the order in which they were added.
    pub rules: Seq<(u32, Seq<u32>)>,
    /// The repetitions not yet rewritten into productions, each as
    /// `(lhs, item, min, max)`.
    pub sequences: Seq<(u32, u32, u32, Option<u32>)>,
    /// The symbol table, in the order in which its rows were added.
    pub syms: Seq<SymbolEntryView>,
    /// The character ranges interned so far.
    pub ranges: Seq<RangeEntry>,
    /// The negative constraints: a marker and one literal forbidden after it.
    pub negative_rules: Seq<(u32, Seq<char>)>,
    /// The weights of weighted choices.
    pub weights: Seq<ChoiceWeights>,
}

/// The outcome of a compilation step in the model: the next state and the
/// step's result, or the fault that ends compilation.
pub type Step<T> = Result<(GeneratorView, T), CompileFault>;

/// The kind of the terminal for the characters from `lo` to `hi`.
pub open spec fn range_kind(lo: char, hi: char) -> SymbolKind {
    if lo == hi {
        SymbolKind::Single(lo)
    } else {
        SymbolKind::Range(lo, hi)
    }
}

/// The position of the first range entry for `lo..=hi` among the first `n`.
pub open spec fn find_range(ranges: Seq<RangeEntry>, lo: char, hi: char, n: int) -> Option<int>
    decreases n,
{
    if n <= 0 {
        None
    } else {
        match find_range(ranges, lo, hi, n - 1) {
            Some(i) => Some(i),
            None => if ranges[n - 1].lo == lo && ranges[n - 1].hi == hi {
                Some(n - 1)
            } else {
                None
            },
        }
    }
}

/// The position of the first row for the symbol `s` among the first `n`.
pub open spec fn find_symbol(syms: Seq<SymbolEntryView>, s: u32, n: int) -> Option<int>
    decreases n,
{
    if n <= 0 {
        None
    } else {
        match find_symbol(syms, s, n - 1) {
            Some(i) => Some(i),
            None => if syms[n - 1].symbol == s {
                Some(n - 1)
            } else {
                None
            },
        }
    }
}

/// The position of the first row named `name`, interned or not, among the
/// first `n`.
pub open spec fn find_any_name(syms: Seq<SymbolEntryView>, name: Seq<char>, n: int) -> Option<
    int,
>
    decreases n,
{
    if n <= 0 {
        None
    } else {
        match find_any_name(syms, name, n - 1) {
            Some(i) => Some(i),
            None => if syms[n - 1].name == name {
                Some(n - 1)
            } else {
                None
            },
        }
    }
}

/// Once a symbol is found among the first `n` rows, it is found at the same
/// place among any more.
pub proof fn lemma_find_symbol_stable(syms: Seq<SymbolEntryView>, s: u32, n: int, m: int)
    requires
        n <= m,
        find_symbol(syms, s, n) is Some,
    ensures
        find_symbol(syms, s, m) == find_symbol(syms, s, n),
    decreases m - n,
{
    if n < m {
        lemma_find_symbol_stable(syms, s, n, m - 1);
    }
}

/// Once a name is found among the first `n` rows, it is found at the same
/// place among any more.
pub proof fn lemma_find_any_name_stable(
    syms: Seq<SymbolEntryView>,
    name: Seq<char>,
    n: int,
    m: int,
)
    requires
        n <= m,
        find_any_name(syms, name, n) is Some,
    ensures
        find_any_name(syms, name, m) == find_any_name(syms, name, n),
    decreases m - n,
{
    if n < m {
        lemma_find_any_name_stable(syms, name, n, m - 1);
    }
}

/// What is found is a row for the symbol that was looked for, and where
/// nothing is found there is no such row.
pub proof fn lemma_find_symbol_found(syms: Seq<SymbolEntryView>, s: u32, n: int)
    requires
        n <= syms.len(),
    ensures
        find_symbol(syms, s, n) matches Some(i) ==> 0 <= i < n && syms[i].symbol == s,
        find_symbol(syms, s, n) is None ==> forall|i: int|
            0 <= i < n ==> (#[trigger] syms[i]).symbol != s,
    decreases n,
{
    if n > 0 {
        lemma_find_symbol_found(syms, s, n - 1);
    }
}

/// What is found is a row of the name that was looked for, and where nothing
/// is found there is no such row.
pub proof fn lemma_find_any_name_found(syms: Seq<SymbolEntryView>, name: Seq<char>, n: int)
    requires
        n <= syms.len(),
    ensures
        find_any_name(syms, name, n) matches Some(i) ==> 0 <= i < n && syms[i].name == name,
        find_any_name(syms, name, n) is None ==> forall|i: int|
            0 <= i < n ==> (#[trigger] syms[i]).name != name,
    decreases n,
{
    if n > 0 {
        lemma_find_any_name_found(syms, name, n - 1);
    }
}

/// Whether the names stand in ascending order, no name twice.
pub open spec fn ascending(names: Seq<Seq<char>>) -> bool {
    forall|i: int, j: int|
        0 <= i < j < names.len() ==> name_lt(#[trigger] names[i], #[trigger] names[j])
}

/// The rows among the first `n` that emit a character or nothing are rows of
/// the table, in the order of the table.
pub proof fn lemma_terminal_rows_sorted(syms: Seq<SymbolEntryView>, n: int)
    requires
        0 <= n <= syms.len(),
    ensures
        sorted_by_name(syms) ==> sorted_by_name(terminal_rows(syms, n)),
        forall|i: int|
            0 <= i < terminal_rows(syms, n).len() ==> exists|j: int|
                0 <= j < n && syms[j] == #[trigger] terminal_rows(syms, n)[i],
    decreases n,
{
    if n > 0 {
        lemma_terminal_rows_sorted(syms, n - 1);
        let before = terminal_rows(syms, n - 1);
        let rows = terminal_rows(syms, n);
        assert forall|i: int| 0 <= i < rows.len() implies exists|j: int|
            0 <= j < n && syms[j] == #[trigger] rows[i] by {
            if i < before.len() {
                let j = choose|j: int| 0 <= j < n - 1 && syms[j] == before[i];
                assert(syms[j] == rows[i]);
            } else {
                assert(syms[n - 1] == rows[i]);
            }
        }
        if sorted_by_name(syms) {
            assert forall|i: int, j: int| 0 <= i < j < rows.len() implies name_lt(
                (#[trigger] rows[i]).name,
                (#[trigger] rows[j]).name,
            ) by {
                if j < before.len() {
                    assert(rows[i] == before[i] && rows[j] == before[j]);
                } else {
                    let x = choose|x: int| 0 <= x < n - 1 && syms[x] == before[i];
                    assert(rows[i] == syms[x]);
                    assert(rows[j] == syms[n - 1]);
                }
            }
        }
    }
}

/// Whether the rows stand in ascending order of name, no name twice.
pub open spec fn sorted_by_name(syms: Seq<SymbolEntryView>) -> bool {
    forall|i: int, j: int|
        0 <= i < j < syms.len() ==> name_lt((#[trigger] syms[i]).name, (#[trigger] syms[j]).name)
}

/// Whether no two entries stand for one range of characters.
pub open spec fn ranges_distinct(ranges: Seq<RangeEntry>) -> bool {
    forall|i: int, j: int|
        0 <= i < j < ranges.len() ==> !((#[trigger] ranges[i]).lo == (#[trigger] ranges[j]).lo
            && ranges[i].hi == ranges[j].hi)
}

/// Where no entry is found for a range among the first `n`, none of them is
/// for it.
pub proof fn lemma_find_range_none(ranges: Seq<RangeEntry>, lo: char, hi: char, n: int)
    requires
        n <= ranges.len(),
        find_range(ranges, lo, hi, n) is None,
    ensures
        forall|i: int| 0 <= i < n ==> !((#[trigger] ranges[i]).lo == lo && ranges[i].hi == hi),
    decreases n,
{
    if n > 0 {
        lemma_find_range_none(ranges, lo, hi, n - 1);
    }
}

/// Whether no two rows stand for one symbol.
pub open spec fn symbols_distinct(syms: Seq<SymbolEntryView>) -> bool {
    forall|i: int, j: int|
        0 <= i < j < syms.len() ==> (#[trigger] syms[i]).symbol != (#[trigger] syms[j]).symbol
}

/// Whether every row of `earlier` is a row of `later`.
pub open spec fn holds_rows(later: Seq<SymbolEntryView>, earlier: Seq<SymbolEntryView>) -> bool {
    forall|i: int| 0 <= i < earlier.len() ==> later.contains(#[trigger] earlier[i])
}

/// The place of a row named `name` in the table: that of the first row from
/// `i` on whose name does not come before `name`.
pub open spec fn place_from(syms: Seq<SymbolEntryView>, name: Seq<char>, i: int) -> int
    decreases syms.len() - i,
{
    if i < 0 || i >= syms.len() {
        syms.len() as int
    } else if name_lt(syms[i].name, name) {
        place_from(syms, name, i + 1)
    } else {
        i
    }
}

/// The name of the row of the symbol `s`.
pub open spec fn name_in(syms: Seq<SymbolEntryView>, s: u32) -> Seq<char> {
    syms[find_symbol(syms, s, syms.len() as int)->Some_0].name
}

/// The kind of the terminal that a well-known name stands for: nothing for
/// `SOI` and `EOI`, a lower-case letter for `ASCII_ALPHA` and
/// `ASCII_ALPHANUMERIC`, a digit for `ASCII_DIGIT`, a printable ASCII
/// character for `ANY`.
pub open spec fn well_known(name: Seq<char>) -> Option<SymbolKind> {
    if name == "SOI"@ || name == "EOI"@ {
        Some(SymbolKind::Null)
    } else if name == "ASCII_ALPHA"@ || name == "ASCII_ALPHANUMERIC"@ {
        Some(SymbolKind::Range('a', 'z'))
    } else if name == "ASCII_DIGIT"@ {
        Some(SymbolKind::Range('0', '9'))
    } else if name == "ANY"@ {
        Some(SymbolKind::Range(' ', '~'))
    } else {
        None
    }
}

/// The names of one production: of its left-hand side and of each symbol of
/// its right-hand side.
pub struct RuleDecl {
    pub lhs: String,
    pub rhs: Vec<String>,
}

impl View for RuleDecl {
    type V = (Seq<char>, Seq<Seq<char>>);

    open spec fn view(&self) -> (Seq<char>, Seq<Seq<char>>) {
        (self.lhs@, self.rhs@.map_values(|n: String| n@))
    }
}

/// The name of a marker and one literal that may not follow it.
pub struct NegativeDecl {
    pub name: String,
    pub chars: String,
}

impl View for NegativeDecl {
    type V = (Seq<char>, Seq<char>);

    open spec fn view(&self) -> (Seq<char>, Seq<char>) {
        (self.name@, self.chars@)
    }
}

/// Puts `head` in front of the names of a step that went well.
pub open spec fn prepend_names(head: Seq<Seq<char>>, step: Step<Seq<Seq<char>>>) -> Step<
    Seq<Seq<char>>,
> {
    match step {
        Ok((v, rest)) => Ok((v, head + rest)),
        Err(e) => Err(e),
    }
}

/// Puts `head` in front of the constraints of a step that went well.
pub open spec fn prepend_markers(
    head: Seq<(Seq<char>, Seq<char>)>,
    step: Step<Seq<(Seq<char>, Seq<char>)>>,
) -> Step<Seq<(Seq<char>, Seq<char>)>> {
    match step {
        Ok((v, rest)) => Ok((v, head + rest)),
        Err(e) => Err(e),
    }
}

/// Puts `head` in front of the declarations of a step that went well.
pub open spec fn prepend_decls(
    head: Seq<(Seq<char>, Seq<Seq<char>>)>,
    step: Step<Seq<(Seq<char>, Seq<Seq<char>>)>>,
) -> Step<Seq<(Seq<char>, Seq<Seq<char>>)>> {
    match step {
        Ok((v, rest)) => Ok((v, head + rest)),
        Err(e) => Err(e),
    }
}

/// The rows among the first `n` that stand for terminals with a kind of
/// their own.
pub open spec fn terminal_rows(syms: Seq<SymbolEntryView>, n: int) -> Seq<SymbolEntryView>
    decreases n,
{
    if n <= 0 {
        Seq::empty()
    } else if syms[n - 1].kind != SymbolKind::Nonterminal {
        terminal_rows(syms, n - 1).push(syms[n - 1])
    } else {
        terminal_rows(syms, n - 1)
    }
}

/// Puts `head` in front of the symbols of a step that went well.
pub open spec fn prepend(head: Seq<u32>, step: Step<Seq<u32>>) -> Step<Seq<u32>> {
    match step {
        Ok((v, rest)) => Ok((v, head + rest)),
        Err(e) => Err(e),
    }
}

/// The ASCII letters: the lower-case letters, then the upper-case letters.
pub open spec fn letter_char(i: int) -> char {
    if i < 26 {
        (97 + i) as char
    } else {
        (65 + i - 26) as char
    }
}

/// Whether a repetition from `min` to `max` times can be compiled.
pub open spec fn bounds_in_order(min: u32, max: Option<u32>) -> bool {
    &&& min <= MAX_REPEAT
    &&& max matches Some(m) ==> min <= m && m <= MAX_REPEAT
}

/// Whether an executable step ended as the model says.
pub open spec fn agrees(
    r: Result<Vec<u32>, CompileError>,
    after: GeneratorView,
    step: Step<Seq<u32>>,
) -> bool {
    match step {
        Ok((v, s)) => r is Ok && r->Ok_0@ == s && after == v,
        Err(e) => r is Err && r->Err_0@ == e,
    }
}

impl GeneratorView {
    /// The state before anything is compiled.
    pub open spec fn empty() -> GeneratorView {
        GeneratorView {
            num_syms: 0,
            rules: Seq::empty(),
            sequences: Seq::empty(),
            syms: Seq::empty(),
            ranges: Seq::empty(),
            negative_rules: Seq::empty(),
            weights: Seq::empty(),
        }
    }

    /// Takes the next symbol, if one is left.
    pub open spec fn fresh(self) -> Step<u32> {
        if self.num_syms == u32::MAX {
            Err(CompileFault::TooManySymbols)
        } else {
            Ok((GeneratorView { num_syms: (self.num_syms + 1) as u32, ..self }, self.num_syms))
        }
    }

    /// Adds a row to the symbol table, at its place in the order of names.
    /// The table takes no second row of a name or of a symbol.
    pub open spec fn with_entry(
        self,
        name: Seq<char>,
        symbol: u32,
        kind: SymbolKind,
        interned: bool,
    ) -> Result<GeneratorView, CompileFault> {
        if find_any_name(self.syms, name, self.syms.len() as int) is Some || find_symbol(
            self.syms,
            symbol,
            self.syms.len() as int,
        ) is Some {
            Err(CompileFault::NameTaken(name))
        } else {
            Ok(
                GeneratorView {
                    syms: self.syms.insert(
                        place_from(self.syms, name, 0),
                        SymbolEntryView { name, symbol, kind, interned },
                    ),
                    ..self
                },
            )
        }
    }

    /// Adds the production `lhs ::= rhs`.
    pub open spec fn with_rule(self, lhs: u32, rhs: Seq<u32>) -> GeneratorView {
        GeneratorView { rules: self.rules.push((lhs, rhs)), ..self }
    }

    /// Adds the repetition "`lhs` is `item`, `min` to `max` times".
    pub open spec fn with_sequence(
        self,
        lhs: u32,
        item: u32,
        min: u32,
        max: Option<u32>,
    ) -> GeneratorView {
        GeneratorView { sequences: self.sequences.push((lhs, item, min, max)), ..self }
    }

    /// The symbol for the characters from `lo` to `hi`: the one interned for
    /// this range before, or a fresh terminal named `s_` and its number.
    pub open spec fn intern_chars(self, lo: char, hi: char) -> Step<u32> {
        match find_range(self.ranges, lo, hi, self.ranges.len() as int) {
            Some(i) => Ok((self, self.ranges[i].symbol)),
            None => match self.fresh() {
                Err(e) => Err(e),
                Ok((v, symbol)) => match v.with_entry(
                    numbered("s_"@, symbol),
                    symbol,
                    range_kind(lo, hi),
                    false,
                ) {
                    Err(e) => Err(e),
                    Ok(v1) => Ok(
                        (
                            GeneratorView {
                                ranges: v1.ranges.push(RangeEntry { lo, hi, symbol }),
                                ..v1
                            },
                            symbol,
                        ),
                    ),
                },
            },
        }
    }

    /// The symbol for the rule named `name`: the one interned under this name
    /// before, or a fresh nonterminal. A name that the table holds for a
    /// generated symbol names no rule.
    pub open spec fn intern_ident(self, name: Seq<char>) -> Step<u32> {
        match find_any_name(self.syms, name, self.syms.len() as int) {
            Some(i) => if self.syms[i].interned {
                Ok((self, self.syms[i].symbol))
            } else {
                Err(CompileFault::NameTaken(name))
            },
            None => match self.fresh() {
                Err(e) => Err(e),
                Ok((v, symbol)) => match v.with_entry(
                    name,
                    symbol,
                    SymbolKind::Nonterminal,
                    true,
                ) {
                    Err(e) => Err(e),
                    Ok(v1) => Ok((v1, symbol)),
                },
            },
        }
    }

    /// Records the name `r_` and its number for an auxiliary nonterminal.
    pub open spec fn add_rule(self, lhs: u32) -> Result<GeneratorView, CompileFault> {
        self.with_entry(numbered("r_"@, lhs), lhs, SymbolKind::Nonterminal, false)
    }

    /// Records the name `neg_` and its number for a lookahead marker.
    pub open spec fn add_negative_sym(self, neg: u32) -> Result<GeneratorView, CompileFault> {
        self.with_entry(numbered("neg_"@, neg), neg, SymbolKind::Nonterminal, false)
    }

    /// Forbids `chars` right after the marker `neg`.
    pub open spec fn add_negative_rule(self, neg: u32, chars: Seq<char>) -> GeneratorView {
        GeneratorView { negative_rules: self.negative_rules.push((neg, chars)), ..self }
    }

    /// The symbols of a literal: one single-character terminal for each of its
    /// characters, in order.
    pub open spec fn intern_str(self, chars: Seq<char>) -> Step<Seq<u32>>
        decreases chars.len(),
    {
        if chars.len() == 0 {
            Ok((self, Seq::empty()))
        } else {
            match self.intern_chars(chars.first(), chars.first()) {
                Err(e) => Err(e),
                Ok((v, s)) => prepend(seq![s], v.intern_str(chars.drop_first())),
            }
        }
    }

    /// What stands between the two sides of a sequence: the symbol of the
    /// rule `WHITESPACE` in a rule declared non-atomic, nothing in any other.
    pub open spec fn whitespace(self, ty: RuleType) -> Step<Seq<u32>> {
        if !ty.spec_splices_whitespace() {
            Ok((self, Seq::empty()))
        } else {
            match self.intern_ident("WHITESPACE"@) {
                Err(e) => Err(e),
                Ok((v, s)) => Ok((v, seq![s])),
            }
        }
    }

    /// Forbids each of the first `n` ASCII letters after `neg`.
    pub open spec fn forbid_letters(self, neg: u32, n: int) -> GeneratorView
        decreases n,
    {
        if n <= 0 {
            self
        } else {
            self.forbid_letters(neg, n - 1).add_negative_rule(neg, seq![letter_char(n - 1)])
        }
    }

    /// Gives the choice symbol `lhs` its two alternatives, in order, and records
    /// the weights of the two beside them where there are any.
    pub open spec fn finish_choice(
        self,
        lhs: u32,
        left: Seq<u32>,
        right: Seq<u32>,
        weights: Option<(u32, u32)>,
    ) -> Step<Seq<u32>> {
        match self.with_rule(lhs, left).with_rule(lhs, right).add_rule(lhs) {
            Err(e) => Err(e),
            Ok(v) => match weights {
                None => Ok((v, seq![lhs])),
                Some((wl, wr)) => Ok(
                    (
                        GeneratorView {
                            weights: v.weights.push(
                                ChoiceWeights {
                                    symbol: lhs,
                                    left: wl,
                                    right: wr,
                                    left_empty: left.len() == 0,
                                    right_empty: right.len() == 0,
                                },
                            ),
                            ..v
                        },
                        seq![lhs],
                    ),
                ),
            },
        }
    }

    /// Makes `lhs` the repetition of what `rhs` derives. A right-hand side of
    /// one symbol is repeated as it is; any other gets a nonterminal of its own.
    pub open spec fn finish_repetition(
        self,
        lhs: u32,
        rhs: Seq<u32>,
        min: u32,
        max: Option<u32>,
    ) -> Step<Seq<u32>> {
        if rhs.len() == 1 {
            match self.with_sequence(lhs, rhs[0], min, max).add_rule(lhs) {
                Err(e) => Err(e),
                Ok(v) => Ok((v, seq![lhs])),
            }
        } else {
            match self.fresh() {
                Err(e) => Err(e),
                Ok((v, item)) => match v.with_rule(item, rhs).add_rule(item) {
                    Err(e) => Err(e),
                    Ok(v1) => match v1.with_sequence(lhs, item, min, max).add_rule(lhs) {
                        Err(e) => Err(e),
                        Ok(v2) => Ok((v2, seq![lhs])),
                    },
                },
            }
        }
    }

    /// Registers what may not follow the marker `neg`, for the operand of a
    /// negative lookahead: the literal itself, or every ASCII letter for the
    /// rule `ASCII_ALPHA`. No other operand is supported.
    pub open spec fn forbid(self, neg: u32, operand: Expr) -> Step<Seq<u32>> {
        match operand {
            Expr::Str(chars) => Ok(
                (self.add_negative_rule(neg, chars@).with_rule(neg, Seq::empty()), seq![neg]),
            ),
            Expr::Ident(name) => if name@ == "ASCII_ALPHA"@ {
                Ok((self.forbid_letters(neg, 52).with_rule(neg, Seq::empty()), seq![neg]))
            } else {
                Err(CompileFault::UnsupportedLookahead)
            },
            _ => Err(CompileFault::UnsupportedLookahead),
        }
    }

    /// What compiling one expression inside a rule of type `ty` gives: the
    /// symbols to splice into the enclosing production, and the state with the
    /// symbols, productions and constraints that the expression needed.
    pub open spec fn process_expr(self, expr: Expr, ty: RuleType) -> Step<Seq<u32>>
        decreases expr,
    {
        match expr {
            Expr::Str(chars) => self.intern_str(chars@),
            Expr::Insens(chars) => self.intern_str(chars@),
            Expr::Range(lo, hi) => if lo > hi {
                Err(CompileFault::InvalidBounds)
            } else {
                match self.intern_chars(lo, hi) {
                    Err(e) => Err(e),
                    Ok((v, s)) => Ok((v, seq![s])),
                }
            },
            Expr::Ident(name) => match self.intern_ident(name@) {
                Err(e) => Err(e),
                Ok((v, s)) => Ok((v, seq![s])),
            },
            Expr::Sequence(left, right) => match self.process_expr(*left, ty) {
                Err(e) => Err(e),
                Ok((v1, l)) => match v1.whitespace(ty) {
                    Err(e) => Err(e),
                    Ok((v2, ws)) => prepend(l + ws, v2.process_expr(*right, ty)),
                },
            },
            Expr::Choice(left, right, weights) => match self.fresh() {
                Err(e) => Err(e),
                Ok((v1, lhs)) => match v1.process_expr(*left, ty) {
                    Err(e) => Err(e),
                    Ok((v2, l)) => match v2.process_expr(*right, ty) {
                        Err(e) => Err(e),
                        Ok((v3, r)) => v3.finish_choice(lhs, l, r, weights),
                    },
                },
            },
            Expr::Opt(inner) => match self.fresh() {
                Err(e) => Err(e),
                Ok((v1, lhs)) => match v1.process_expr(*inner, ty) {
                    Err(e) => Err(e),
                    Ok((v2, rhs)) => match v2.with_rule(lhs, rhs).with_rule(
                        lhs,
                        Seq::empty(),
                    ).add_rule(lhs) {
                        Err(e) => Err(e),
                        Ok(v3) => Ok((v3, seq![lhs])),
                    },
                },
            },
            Expr::Rep(inner, min, max) => if !bounds_in_order(min, max) {
                Err(CompileFault::InvalidBounds)
            } else {
                match self.fresh() {
                    Err(e) => Err(e),
                    Ok((v1, lhs)) => match v1.process_expr(*inner, ty) {
                        Err(e) => Err(e),
                        Ok((v2, rhs)) => v2.finish_repetition(lhs, rhs, min, max),
                    },
                }
            },
            Expr::PosPred(_) => Ok((self, Seq::empty())),
            Expr::NegPred(inner) => match self.fresh() {
                Err(e) => Err(e),
                Ok((v1, neg)) => match v1.add_negative_sym(neg) {
                    Err(e) => Err(e),
                    Ok(v2) => v2.forbid(neg, *inner),
                },
            },
            Expr::Weight => Ok((self, Seq::empty())),
        }
    }

    /// What compiling one rule does: its name is interned, its expression
    /// compiled, and the production from the one to the other added.
    pub open spec fn process_rule(self, name: Seq<char>, ty: RuleType, expr: Expr) -> Step<()> {
        match self.intern_ident(name) {
            Err(e) => Err(e),
            Ok((v1, lhs)) => match v1.process_expr(expr, ty) {
                Err(e) => Err(e),
                Ok((v2, rhs)) => Ok((v2.with_rule(lhs, rhs), ())),
            },
        }
    }

    /// What compiling the rules from position `k` on gives, in order, up to the
    /// first that cannot be compiled.
    pub open spec fn process_rules(self, rules: Seq<Rule>, k: int) -> Result<
        GeneratorView,
        CompileFault,
    >
        decreases rules.len() - k,
    {
        if k >= rules.len() || k < 0 {
            Ok(self)
        } else {
            match self.process_rule(rules[k].name@, rules[k].ty, rules[k].expr) {
                Err(e) => Err(e),
                Ok((v, _)) => v.process_rules(rules, k + 1),
            }
        }
    }

    /// The state after the pending repetitions have become productions.
    pub open spec fn rewrite_sequences(self) -> GeneratorView {
        let (rules, num_syms) = sequences_rewritten(self.rules, self.sequences, self.num_syms);
        GeneratorView { rules, num_syms, sequences: Seq::empty(), ..self }
    }

    /// Gives the symbol `t` its kind, if it is a terminal that has none yet:
    /// the kind that its name is well known for. A terminal with any other
    /// name, or with no name at all, is a reference to a rule that does not
    /// exist.
    pub open spec fn classify(self, t: u32) -> Result<GeneratorView, CompileFault> {
        if !is_terminal(self.rules, t as int) {
            Ok(self)
        } else {
            match find_symbol(self.syms, t, self.syms.len() as int) {
                None => Err(CompileFault::UnknownRule(numbered("g_"@, t))),
                Some(i) => if self.syms[i].kind != SymbolKind::Nonterminal {
                    Ok(self)
                } else {
                    match well_known(self.syms[i].name) {
                        None => Err(CompileFault::UnknownRule(self.syms[i].name)),
                        Some(kind) => Ok(
                            GeneratorView {
                                syms: self.syms.update(
                                    i,
                                    SymbolEntryView { kind, ..self.syms[i] },
                                ),
                                ..self
                            },
                        ),
                    }
                },
            }
        }
    }

    /// Classifies the symbols from `t` up to `n`, in order, up to the first
    /// that cannot be classified.
    pub open spec fn classify_from(self, t: int, n: int) -> Result<GeneratorView, CompileFault>
        decreases n - t,
    {
        if t >= n || t < 0 || t > u32::MAX {
            Ok(self)
        } else {
            match self.classify(t as u32) {
                Err(e) => Err(e),
                Ok(v) => v.classify_from(t + 1, n),
            }
        }
    }

    /// Classifies every terminal of the grammar.
    pub open spec fn update_chars(self) -> Result<GeneratorView, CompileFault> {
        self.classify_from(0, self.num_syms as int)
    }

    /// The name of the symbol `s`: the one in its row of the table, or, where
    /// it has no row, `prefix` and its number, which then gets a row.
    pub open spec fn named(self, s: u32, prefix: Seq<char>) -> Step<Seq<char>> {
        match find_symbol(self.syms, s, self.syms.len() as int) {
            Some(i) => Ok((self, self.syms[i].name)),
            None => match self.with_entry(
                numbered(prefix, s),
                s,
                SymbolKind::Nonterminal,
                false,
            ) {
                Err(e) => Err(e),
                Ok(v) => Ok((v, numbered(prefix, s))),
            },
        }
    }

    /// The names of the symbols `syms`, in order.
    pub open spec fn named_all(self, syms: Seq<u32>) -> Step<Seq<Seq<char>>>
        decreases syms.len(),
    {
        if syms.len() == 0 {
            Ok((self, Seq::empty()))
        } else {
            match self.named(syms.first(), "g_"@) {
                Err(e) => Err(e),
                Ok((v, name)) => prepend_names(seq![name], v.named_all(syms.drop_first())),
            }
        }
    }

    /// The names of the production `lhs ::= rhs`.
    pub open spec fn decl_rule(self, lhs: u32, rhs: Seq<u32>) -> Step<
        (Seq<char>, Seq<Seq<char>>),
    > {
        match self.named(lhs, "g_"@) {
            Err(e) => Err(e),
            Ok((v1, name)) => match v1.named_all(rhs) {
                Err(e) => Err(e),
                Ok((v2, names)) => Ok((v2, (name, names))),
            },
        }
    }

    /// The names of the productions `rules` from position `k` on.
    pub open spec fn decl_rules_from(self, rules: Seq<(u32, Seq<u32>)>, k: int) -> Step<
        Seq<(Seq<char>, Seq<Seq<char>>)>,
    >
        decreases rules.len() - k,
    {
        if k >= rules.len() || k < 0 {
            Ok((self, Seq::empty()))
        } else {
            match self.decl_rule(rules[k].0, rules[k].1) {
                Err(e) => Err(e),
                Ok((v, decl)) => prepend_decls(seq![decl], v.decl_rules_from(rules, k + 1)),
            }
        }
    }

    /// The grammar's productions by name, and the state in which every symbol
    /// of a production has a row in the table.
    pub open spec fn decl_rules(self) -> Step<Seq<(Seq<char>, Seq<Seq<char>>)>> {
        self.decl_rules_from(self.rules, 0)
    }

    /// The names in the table, in the order of its rows: each name once, in
    /// ascending order.
    pub open spec fn decl_symbols(self) -> Seq<Seq<char>> {
        self.syms.map_values(|e: SymbolEntryView| e.name)
    }

    /// The symbol from which generation for the rule `name` starts: the symbol
    /// of the row of this name, if it is a nonterminal that owns a production.
    pub open spec fn match_start(self, name: Seq<char>) -> Option<u32> {
        match find_any_name(self.syms, name, self.syms.len() as int) {
            Some(i) => if self.syms[i].kind == SymbolKind::Nonterminal && !is_terminal(
                self.rules,
                self.syms[i].symbol as int,
            ) {
                Some(self.syms[i].symbol)
            } else {
                None
            },
            None => None,
        }
    }

    /// The rows of the terminals that emit a character or nothing, in the
    /// order of the table, which is the ascending order of their names.
    pub open spec fn stmt_char_from_sym(self) -> Seq<SymbolEntryView> {
        terminal_rows(self.syms, self.syms.len() as int)
    }

    /// The constraints `rules` from position `k` on, each with the name of its
    /// marker: the name in the marker's row, or, where it has no row, `neg_`
    /// and its number, which then gets a row.
    pub open spec fn decl_negative_rules_from(self, rules: Seq<(u32, Seq<char>)>, k: int) -> Step<
        Seq<(Seq<char>, Seq<char>)>,
    >
        decreases rules.len() - k,
    {
        if k >= rules.len() || k < 0 {
            Ok((self, Seq::empty()))
        } else {
            match self.named(rules[k].0, "neg_"@) {
                Err(e) => Err(e),
                Ok((v, name)) => prepend_markers(
                    seq![(name, rules[k].1)],
                    v.decl_negative_rules_from(rules, k + 1),
                ),
            }
        }
    }

    /// The negative constraints, each with the name of its marker.
    pub open spec fn decl_negative_rules(self) -> Step<Seq<(Seq<char>, Seq<char>)>> {
        self.decl_negative_rules_from(self.negative_rules, 0)
    }

    /// Whether the declarations `decls` give the constraints `rules` by the
    /// names of this table: every marker has a row and stands under the name of
    /// its row, with the literal that may not follow it.
    pub open spec fn marks(
        self,
        rules: Seq<(u32, Seq<char>)>,
        decls: Seq<(Seq<char>, Seq<char>)>,
    ) -> bool {
        &&& decls.len() == rules.len()
        &&& forall|k: int|
            0 <= k < rules.len() ==> self.names(rules[k].0, (#[trigger] decls[k]).0) && decls[k].1
                == rules[k].1
    }

    /// Whether this state continues `earlier`: nothing that `earlier` held was
    /// changed or removed, in particular no symbol's name or kind.
    pub open spec fn extends(self, earlier: GeneratorView) -> bool {
        &&& earlier.num_syms <= self.num_syms
        &&& earlier.rules.is_prefix_of(self.rules)
        &&& earlier.sequences.is_prefix_of(self.sequences)
        &&& holds_rows(self.syms, earlier.syms)
        &&& earlier.ranges.is_prefix_of(self.ranges)
        &&& earlier.negative_rules.is_prefix_of(self.negative_rules)
        &&& earlier.weights.is_prefix_of(self.weights)
    }

    /// What holds of every state that the compiler reaches: the bounds of each
    /// pending repetition are in order, the symbol table holds its rows in
    /// ascending order of name, one row for a name and one for a symbol, and
    /// there is one entry for a range of characters.
    pub open spec fn wf(self) -> bool {
        &&& bounds_ordered(self.sequences)
        &&& sorted_by_name(self.syms)
        &&& symbols_distinct(self.syms)
        &&& ranges_distinct(self.ranges)
    }

    /// Whether the declarations `decls` render the productions `rules` by the
    /// names of this table: every symbol of every production has a row, and
    /// stands in the declaration under the name of its row.
    pub open spec fn renders(
        self,
        rules: Seq<(u32, Seq<u32>)>,
        decls: Seq<(Seq<char>, Seq<Seq<char>>)>,
    ) -> bool {
        &&& decls.len() == rules.len()
        &&& forall|k: int|
            0 <= k < rules.len() ==> {
                &&& self.names(rules[k].0, (#[trigger] decls[k]).0)
                &&& decls[k].1.len() == rules[k].1.len()
                &&& forall|j: int|
                    0 <= j < rules[k].1.len() ==> self.names(
                        rules[k].1[j],
                        #[trigger] decls[k].1[j],
                    )
            }
    }

    /// Whether the names of the table tell the symbols apart: one symbol
    /// stands under one name, and different symbols under different names.
    pub open spec fn one_to_one(self) -> bool {
        forall|s1: u32, n1: Seq<char>, s2: u32, n2: Seq<char>|
            (#[trigger] self.names(s1, n1)) && (#[trigger] self.names(s2, n2)) ==> ((s1 == s2)
                == (n1 == n2))
    }

    /// Whether the table holds a row that gives the symbol `s` the name
    /// `name`.
    pub open spec fn names(self, s: u32, name: Seq<char>) -> bool {
        exists|i: int|
            0 <= i < self.syms.len() && (#[trigger] self.syms[i]).symbol == s && self.syms[i].name
                == name
    }
}

/// Once a range is found among the first `n` entries, it is found at the same
/// place among any more.
pub proof fn lemma_find_range_stable(ranges: Seq<RangeEntry>, lo: char, hi: char, n: int, m: int)
    requires
        n <= m,
        find_range(ranges, lo, hi, n) is Some,
    ensures
        find_range(ranges, lo, hi, m) == find_range(ranges, lo, hi, n),
    decreases m - n,
{
    if n < m {
        lemma_find_range_stable(ranges, lo, hi, n, m - 1);
    }
}

/// A search among the first `n` entries looks at those entries only.
pub proof fn lemma_find_range_prefix(
    a: Seq<RangeEntry>,
    b: Seq<RangeEntry>,
    lo: char,
    hi: char,
    n: int,
)
    requires
        n <= a.len(),
        n <= b.len(),
        forall|i: int| 0 <= i < n ==> a[i] == b[i],
    ensures
        find_range(a, lo, hi, n) == find_range(b, lo, hi, n),
    decreases n,
{
    if n > 0 {
        lemma_find_range_prefix(a, b, lo, hi, n - 1);
    }
}

impl View for Generator {
    type V = GeneratorView;

    closed spec fn view(&self) -> GeneratorView {
        GeneratorView {
            num_syms: cfg_num_syms(self.grammar),
            rules: cfg_rules(self.grammar),
            sequences: cfg_sequences(self.grammar),
            syms: self.syms@.map_values(|e: SymbolEntry| e@),
            ranges: self.syms_by_range@,
            negative_rules: self.negative_rules@.map_values(|r: NegativeRuleMeta| r@),
            weights: self.weights@,
        }
    }
}

impl Generator {
    /// A compiler that has seen nothing yet.
    pub fn new() -> (g: Generator)
        ensures
            g@ == GeneratorView::empty(),
            g@.wf(),
    {
        let g = Generator {
            grammar: new_grammar(),
            syms: Vec::new(),
            syms_by_range: Vec::new(),
            negative_rules: Vec::new(),
            weights: Vec::new(),
        };
        assert(g@.syms =~= Seq::empty());
        assert(g@.negative_rules =~= Seq::empty());
        g
    }

    /// Takes the next symbol from the grammar, if one is left.
    fn fresh(&mut self) -> (r: Result<u32, CompileError>)
        ensures
            match old(self)@.fresh() {
                Ok((v, s)) => r == Ok::<u32, CompileError>(s) && final(self)@ == v,
                Err(e) => r is Err && r->Err_0@ == e,
            },
    {
        let s = fresh_symbol(&mut self.grammar);
        if s == u32::MAX {
            Err(CompileError::TooManySymbols)
        } else {
            Ok(s)
        }
    }

    /// The row named `name`.
    fn find_any_name(&self, name: &String) -> (r: Option<usize>)
        ensures
            match r {
                Some(i) => find_any_name(self@.syms, name@, self@.syms.len() as int) == Some(
                    i as int,
                ) && i < self.syms@.len() && self@.syms[i as int] == self.syms@[i as int]@,
                None => find_any_name(self@.syms, name@, self@.syms.len() as int) is None,
            },
    {
        let mut i: usize = 0;
        while i < self.syms.len()
            invariant
                i <= self.syms.len(),
                self@.syms == self.syms@.map_values(|e: SymbolEntry| e@),
                find_any_name(self@.syms, name@, i as int) is None,
            decreases self.syms.len() - i,
        {
            if self.syms[i].name == *name {
                proof {
                    lemma_find_any_name_stable(
                        self@.syms,
                        name@,
                        i + 1,
                        self@.syms.len() as int,
                    );
                }
                return Some(i);
            }
            i += 1;
        }
        None
    }

    /// The place of a row named `name` in the table.
    fn place(&self, name: &String) -> (p: usize)
        ensures
            p == place_from(self@.syms, name@, 0),
            p <= self.syms@.len(),
    {
        let mut i: usize = 0;
        let mut before = true;
        while before && i < self.syms.len()
            invariant
                i <= self.syms.len(),
                self@.syms == self.syms@.map_values(|e: SymbolEntry| e@),
                place_from(self@.syms, name@, 0) == if before {
                    place_from(self@.syms, name@, i as int)
                } else {
                    i as int
                },
            decreases self.syms.len() - i + if before { 1int } else { 0int },
        {
            assert(self@.syms[i as int] == self.syms@[i as int]@);
            if name_before(&self.syms[i].name, name) {
                i += 1;
            } else {
                before = false;
            }
        }
        i
    }

    /// Adds a row to the symbol table, unless the table holds the name or
    /// the symbol already.
    fn push_entry(&mut self, name: String, symbol: u32, kind: SymbolKind, interned: bool) -> (r:
        Result<(), CompileError>)
        ensures
            match old(self)@.with_entry(name@, symbol, kind, interned) {
                Ok(v) => r is Ok && final(self)@ == v,
                Err(e) => r is Err && r->Err_0@ == e,
            },
    {
        if self.find_any_name(&name).is_some() || self.find_symbol(symbol).is_some() {
            return Err(CompileError::NameTaken(name));
        }
        let p = self.place(&name);
        let ghost row = SymbolEntryView { name: name@, symbol, kind, interned };
        self.syms.insert(p, SymbolEntry { name, sym: SymbolWithKind { symbol, kind }, interned });
        assert(self@.syms =~= old(self)@.syms.insert(p as int, row));
        Ok(())
    }

    fn find_range(&self, lo: char, hi: char) -> (r: Option<u32>)
        ensures
            match find_range(self@.ranges, lo, hi, self@.ranges.len() as int) {
                Some(i) => r == Some(self@.ranges[i].symbol),
                None => r is None,
            },
    {
        let mut i: usize = 0;
        while i < self.syms_by_range.len()
            invariant
                i <= self.syms_by_range.len(),
                self@.ranges == self.syms_by_range@,
                find_range(self@.ranges, lo, hi, i as int) is None,
            decreases self.syms_by_range.len() - i,
        {
            let e = self.syms_by_range[i];
            if e.lo == lo && e.hi == hi {
                proof {
                    lemma_find_range_stable(
                        self@.ranges,
                        lo,
                        hi,
                        i + 1,
                        self@.ranges.len() as int,
                    );
                }
                return Some(e.symbol);
            }
            i += 1;
        }
        None
    }

    /// The symbol for the characters from `lo` to `hi`, both included: the
    /// same symbol for the same pair, however often it is asked for.
    pub fn intern_chars(&mut self, lo: char, hi: char) -> (r: Result<u32, CompileError>)
        ensures
            match old(self)@.intern_chars(lo, hi) {
                Ok((v, s)) => r == Ok::<u32, CompileError>(s) && final(self)@ == v,
                Err(e) => r is Err && r->Err_0@ == e,
            },
            r is Ok ==> final(self)@.extends(old(self)@),
            r is Ok && old(self)@.wf() ==> final(self)@.wf(),
    {
        proof {
            lemma_intern_chars_extends(old(self)@, lo, hi);
        }
        match self.find_range(lo, hi) {
            Some(symbol) => Ok(symbol),
            None => {
                let symbol = self.fresh()?;
                let kind = if lo == hi {
                    SymbolKind::Single(lo)
                } else {
                    SymbolKind::Range(lo, hi)
                };
                self.push_entry(numbered_name("s_", symbol), symbol, kind, false)?;
                self.syms_by_range.push(RangeEntry { lo, hi, symbol });
                Ok(symbol)
            },
        }
    }

    /// The symbol for the rule named `name`: the same symbol for the same
    /// name, however often it is asked for.
    pub fn intern_ident(&mut self, name: String) -> (r: Result<u32, CompileError>)
        ensures
            match old(self)@.intern_ident(name@) {
                Ok((v, s)) => r == Ok::<u32, CompileError>(s) && final(self)@ == v,
                Err(e) => r is Err && r->Err_0@ == e,
            },
            r is Ok ==> final(self)@.extends(old(self)@),
            r is Ok && old(self)@.wf() ==> final(self)@.wf(),
    {
        proof {
            lemma_intern_ident_extends(old(self)@, name@);
        }
        match self.find_any_name(&name) {
            Some(i) => {
                if self.syms[i].interned {
                    Ok(self.syms[i].sym.symbol)
                } else {
                    Err(CompileError::NameTaken(name))
                }
            },
            None => {
                let symbol = self.fresh()?;
                self.push_entry(name, symbol, SymbolKind::Nonterminal, true)?;
                Ok(symbol)
            },
        }
    }

    /// Names the auxiliary nonterminal `lhs`.
    pub fn add_rule(&mut self, lhs: u32) -> (r: Result<(), CompileError>)
        ensures
            match old(self)@.add_rule(lhs) {
                Ok(v) => r is Ok && final(self)@ == v,
                Err(e) => r is Err && r->Err_0@ == e,
            },
            r is Ok ==> final(self)@.extends(old(self)@),
            r is Ok && old(self)@.wf() ==> final(self)@.wf(),
    {
        proof {
            lemma_add_rule_extends(old(self)@, lhs);
        }
        self.push_entry(numbered_name("r_", lhs), lhs, SymbolKind::Nonterminal, false)
    }

    /// Names the lookahead marker `neg`.
    pub fn add_negative_sym(&mut self, neg: u32) -> (r: Result<(), CompileError>)
        ensures
            match old(self)@.add_negative_sym(neg) {
                Ok(v) => r is Ok && final(self)@ == v,
                Err(e) => r is Err && r->Err_0@ == e,
            },
            r is Ok ==> final(self)@.extends(old(self)@),
            r is Ok && old(self)@.wf() ==> final(self)@.wf(),
    {
        proof {
            lemma_add_rule_extends(old(self)@, neg);
        }
        self.push_entry(numbered_name("neg_", neg), neg, SymbolKind::Nonterminal, false)
    }

    /// Forbids the literal `chars` right after the marker `neg`.
    pub fn add_negative_rule(&mut self, neg: u32, chars: String)
        ensures
            final(self)@ == old(self)@.add_negative_rule(neg, chars@),
            old(self)@.wf() ==> final(self)@.wf(),
    {
        self.negative_rules.push(NegativeRuleMeta { neg, chars });
        assert(self@.negative_rules =~= old(self)@.negative_rules.push((neg, chars@)));
    }

    fn push_rule(&mut self, lhs: u32, rhs: &Vec<u32>)
        ensures
            final(self)@ == old(self)@.with_rule(lhs, rhs@),
    {
        push_rule(&mut self.grammar, lhs, rhs);
    }
    fn push_sequence(&mut self, lhs: u32, item: u32, min: u32, max: Option<u32>)
        ensures
            final(self)@ == old(self)@.with_sequence(lhs, item, min, max),
    {
        push_sequence(&mut self.grammar, lhs, item, min, max);
    }

    fn intern_str(&mut self, chars: &String) -> (r: Result<Vec<u32>, CompileError>)
        ensures
            agrees(r, final(self)@, old(self)@.intern_str(chars@)),
    {
        let text = chars.as_str();
        let n = text.unicode_len();
        let mut out: Vec<u32> = Vec::new();
        let mut i: usize = 0;
        assert(chars@.skip(0) =~= chars@);
        assert(Seq::<u32>::empty() + Seq::<u32>::empty() =~= Seq::<u32>::empty());
        while i < n
            invariant
                i <= n,
                n == chars@.len(),
                text@ == chars@,
                old(self)@.intern_str(chars@) == prepend(
                    out@,
                    self@.intern_str(chars@.skip(i as int)),
                ),
            decreases n - i,
        {
            let ch = text.get_char(i);
            let ghost rest = chars@.skip(i as int);
            let ghost before = self@;
            let ghost done = out@;
            assert(rest.first() == ch);
            assert(rest.drop_first() =~= chars@.skip(i + 1));
            match self.intern_chars(ch, ch) {
                Ok(s) => {
                    out.push(s);
                    proof {
                        let next = self@.intern_str(chars@.skip(i + 1));
                        assert(before.intern_str(rest) == prepend(seq![s], next));
                        match next {
                            Ok((v, tail)) => {
                                assert(done + (seq![s] + tail) =~= out@ + tail);
                            },
                            Err(_) => {},
                        }
                    }
                },
                Err(e) => {
                    return Err(e);
                },
            }
            i += 1;
        }
        proof {
            assert(out@ + Seq::<u32>::empty() =~= out@);
        }
        Ok(out)
    }

    fn whitespace(&mut self, ty: RuleType) -> (r: Result<Vec<u32>, CompileError>)
        ensures
            agrees(r, final(self)@, old(self)@.whitespace(ty)),
    {
        if !ty.splices_whitespace() {
            Ok(Vec::new())
        } else {
            let s = self.intern_ident(String::from_str("WHITESPACE"))?;
            Ok(one(s))
        }
    }

    fn forbid_letters(&mut self, neg: u32)
        ensures
            final(self)@ == old(self)@.forbid_letters(neg, 52),
    {
        let mut i: u8 = 0;
        while i < 52
            invariant
                i <= 52,
                self@ == old(self)@.forbid_letters(neg, i as int),
            decreases 52 - i,
        {
            let ch = if i < 26 {
                (97 + i) as char
            } else {
                (65 + (i - 26)) as char
            };
            assert(ch == letter_char(i as int));
            self.add_negative_rule(neg, char_string(ch));
            i += 1;
        }
    }

    fn finish_choice(
        &mut self,
        lhs: u32,
        left: &Vec<u32>,
        right: &Vec<u32>,
        weights: Option<(u32, u32)>,
    ) -> (r: Result<Vec<u32>, CompileError>)
        ensures
            agrees(r, final(self)@, old(self)@.finish_choice(lhs, left@, right@, weights)),
    {
        self.push_rule(lhs, left);
        self.push_rule(lhs, right);
        self.add_rule(lhs)?;
        match weights {
            None => {},
            Some((wl, wr)) => {
                self.weights.push(
                    ChoiceWeights {
                        symbol: lhs,
                        left: wl,
                        right: wr,
                        left_empty: left.len() == 0,
                        right_empty: right.len() == 0,
                    },
                );
            },
        }
        Ok(one(lhs))
    }

    fn finish_repetition(&mut self, lhs: u32, rhs: &Vec<u32>, min: u32, max: Option<u32>) -> (r:
        Result<Vec<u32>, CompileError>)
        ensures
            agrees(r, final(self)@, old(self)@.finish_repetition(lhs, rhs@, min, max)),
    {
        let item = if rhs.len() == 1 {
            rhs[0]
        } else {
            let item = self.fresh()?;
            self.push_rule(item, rhs);
            self.add_rule(item)?;
            item
        };
        self.push_sequence(lhs, item, min, max);
        self.add_rule(lhs)?;
        Ok(one(lhs))
    }

    fn forbid(&mut self, neg: u32, operand: &Expr) -> (r: Result<Vec<u32>, CompileError>)
        ensures
            agrees(r, final(self)@, old(self)@.forbid(neg, *operand)),
    {
        match operand {
            Expr::Str(chars) => {
                self.add_negative_rule(neg, chars.clone());
            },
            Expr::Ident(name) => {
                if *name == String::from_str("ASCII_ALPHA") {
                    self.forbid_letters(neg);
                } else {
                    return Err(CompileError::UnsupportedLookahead);
                }
            },
            _ => {
                return Err(CompileError::UnsupportedLookahead);
            },
        }
        self.push_rule(neg, &Vec::new());
        Ok(one(neg))
    }

    /// Compiles one expression inside a rule of type `rule_type` and returns
    /// the symbols to splice into the enclosing production.
    ///
    /// A literal gives one terminal per character, a range one terminal, a
    /// rule reference the rule's nonterminal. A sequence gives both sides'
    /// symbols, with the whitespace rule between them in a rule declared
    /// non-atomic. Choice, option and repetition each give one fresh nonterminal
    /// that owns the alternatives. Positive lookahead and weight markers give
    /// nothing; negative lookahead gives a fresh marker with an empty
    /// production and registers what may not follow it.
    pub fn process_expr(&mut self, expr: &Expr, rule_type: RuleType) -> (r: Result<
        Vec<u32>,
        CompileError,
    >)
        ensures
            agrees(r, final(self)@, old(self)@.process_expr(*expr, rule_type)),
            r is Ok ==> final(self)@.extends(old(self)@),
            r is Ok && old(self)@.wf() ==> final(self)@.wf(),
        decreases expr,
    {
        proof {
            lemma_process_expr_extends(old(self)@, *expr, rule_type);
        }
        match expr {
            Expr::Str(chars) => self.intern_str(chars),
            Expr::Insens(chars) => self.intern_str(chars),
            Expr::Range(lo, hi) => {
                if *lo > *hi {
                    return Err(CompileError::InvalidBounds);
                }
                let s = self.intern_chars(*lo, *hi)?;
                Ok(one(s))
            },
            Expr::Ident(name) => {
                let s = self.intern_ident(name.clone())?;
                Ok(one(s))
            },
            Expr::Sequence(left, right) => {
                let mut result = self.process_expr(left, rule_type)?;
                let mut ws = self.whitespace(rule_type)?;
                let mut rest = self.process_expr(right, rule_type)?;
                let ghost (l, w, r) = (result@, ws@, rest@);
                result.append(&mut ws);
                result.append(&mut rest);
                assert(result@ =~= (l + w) + r);
                Ok(result)
            },
            Expr::Choice(left, right, weights) => {
                let lhs = self.fresh()?;
                let left_rhs = self.process_expr(left, rule_type)?;
                let right_rhs = self.process_expr(right, rule_type)?;
                self.finish_choice(lhs, &left_rhs, &right_rhs, *weights)
            },
            Expr::Opt(inner) => {
                let lhs = self.fresh()?;
                let rhs = self.process_expr(inner, rule_type)?;
                self.push_rule(lhs, &rhs);
                self.push_rule(lhs, &Vec::new());
                self.add_rule(lhs)?;
                Ok(one(lhs))
            },
            Expr::Rep(inner, min, max) => {
                let ordered = *min <= MAX_REPEAT && match max {
                    Some(m) => *min <= *m && *m <= MAX_REPEAT,
                    None => true,
                };
                if !ordered {
                    return Err(CompileError::InvalidBounds);
                }
                let lhs = self.fresh()?;
                let rhs = self.process_expr(inner, rule_type)?;
                self.finish_repetition(lhs, &rhs, *min, *max)
            },
            Expr::PosPred(_) => Ok(Vec::new()),
            Expr::NegPred(inner) => {
                let neg = self.fresh()?;
                self.add_negative_sym(neg)?;
                self.forbid(neg, inner)
            },
            Expr::Weight => Ok(Vec::new()),
        }
    }

    /// Compiles one rule: the production from the rule's nonterminal to the
    /// symbols of its expression is added to the grammar.
    pub fn process_rule(&mut self, rule: &Rule) -> (r: Result<(), CompileError>)
        ensures
            match old(self)@.process_rule(rule.name@, rule.ty, rule.expr) {
                Ok((v, _)) => r is Ok && final(self)@ == v,
                Err(e) => r is Err && r->Err_0@ == e,
            },
            r is Ok ==> final(self)@.extends(old(self)@),
            r is Ok && old(self)@.wf() ==> final(self)@.wf(),
    {
        proof {
            lemma_process_rule_extends(old(self)@, rule.name@, rule.ty, rule.expr);
        }
        let lhs = self.intern_ident(rule.name.clone())?;
        let rhs = self.process_expr(&rule.expr, rule.ty)?;
        self.push_rule(lhs, &rhs);
        Ok(())
    }

    /// Rewrites the pending repetitions into productions. No production is
    /// lost and no symbol.
    pub fn rewrite_sequences(&mut self)
        requires
            old(self)@.wf(),
        ensures
            final(self)@ == old(self)@.rewrite_sequences(),
            final(self)@.wf(),
            old(self)@.rules.is_prefix_of(final(self)@.rules),
            old(self)@.num_syms <= final(self)@.num_syms,
    {
        rewrite_sequences(&mut self.grammar);
    }

    fn find_symbol(&self, s: u32) -> (r: Option<usize>)
        ensures
            match r {
                Some(i) => find_symbol(self@.syms, s, self@.syms.len() as int) == Some(i as int)
                    && i < self.syms@.len() && self.syms@[i as int].sym.symbol == s,
                None => find_symbol(self@.syms, s, self@.syms.len() as int) is None,
            },
    {
        let mut i: usize = 0;
        while i < self.syms.len()
            invariant
                i <= self.syms.len(),
                self@.syms == self.syms@.map_values(|e: SymbolEntry| e@),
                find_symbol(self@.syms, s, i as int) is None,
            decreases self.syms.len() - i,
        {
            if self.syms[i].sym.symbol == s {
                proof {
                    lemma_find_symbol_stable(self@.syms, s, i + 1, self@.syms.len() as int);
                    lemma_find_symbol_found(self@.syms, s, self@.syms.len() as int);
                }
                return Some(i);
            }
            i += 1;
        }
        None
    }

    fn classify(&mut self, t: u32, index: &Vec<Vec<usize>>) -> (r: Result<(), CompileError>)
        requires
            t < index@.len(),
            row_view(index@[t as int]) == alternatives_of(old(self)@.rules, t as int),
        ensures
            match old(self)@.classify(t) {
                Ok(v) => r is Ok && final(self)@ == v,
                Err(e) => r is Err && r->Err_0@ == e,
            },
    {
        assert(row_view(index@[t as int]).len() == index@[t as int]@.len());
        if index[t as usize].len() != 0 {
            return Ok(());
        }
        match self.find_symbol(t) {
            None => Err(CompileError::UnknownRule(numbered_name("g_", t))),
            Some(i) => {
                let entry = &self.syms[i];
                assert(self@.syms[i as int] == entry@);
                if entry.sym.kind != SymbolKind::Nonterminal {
                    return Ok(());
                }
                match well_known_kind(&entry.name) {
                    None => Err(CompileError::UnknownRule(entry.name.clone())),
                    Some(kind) => {
                        let name = entry.name.clone();
                        let interned = entry.interned;
                        self.syms.set(
                            i,
                            SymbolEntry { name, sym: SymbolWithKind { symbol: t, kind }, interned },
                        );
                        proof {
                            lemma_find_symbol_found(
                                old(self)@.syms,
                                t,
                                old(self)@.syms.len() as int,
                            );
                            assert(self@.syms =~= old(self)@.syms.update(
                                i as int,
                                SymbolEntryView { kind, ..old(self)@.syms[i as int] },
                            ));
                        }
                        Ok(())
                    },
                }
            },
        }
    }

    /// Gives every terminal that has no kind yet the kind that its name is
    /// well known for, and reports the first that has no such name as a
    /// reference to a rule that does not exist.
    pub fn update_chars(&mut self) -> (r: Result<(), CompileError>)
        ensures
            match old(self)@.update_chars() {
                Ok(v) => r is Ok && final(self)@ == v,
                Err(e) => r is Err && r->Err_0@ == e,
            },
            r is Ok && old(self)@.wf() ==> final(self)@.wf(),
    {
        proof {
            lemma_update_chars_classifies(old(self)@);
        }
        let rules = rules_of(&self.grammar);
        let n = symbol_count(&self.grammar);
        let index = index_rules(&rules, n as usize);
        let mut t: u32 = 0;
        while t < n
            invariant
                t <= n,
                n == self@.num_syms,
                index@.len() == n,
                self@.rules == productions_view(rules@),
                forall|s: int|
                    0 <= s < n ==> row_view(#[trigger] index@[s]) == alternatives_of(
                        productions_view(rules@),
                        s,
                    ),
                old(self)@.update_chars() == self@.classify_from(t as int, n as int),
            decreases n - t,
        {
            self.classify(t, &index)?;
            t += 1;
        }
        Ok(())
    }

    fn named(&mut self, s: u32, prefix: &str) -> (r: Result<String, CompileError>)
        ensures
            match old(self)@.named(s, prefix@) {
                Ok((v, name)) => r is Ok && r->Ok_0@ == name && final(self)@ == v,
                Err(e) => r is Err && r->Err_0@ == e,
            },
    {
        match self.find_symbol(s) {
            Some(i) => {
                assert(self@.syms[i as int] == self.syms@[i as int]@);
                Ok(self.syms[i].name.clone())
            },
            None => {
                let name = numbered_name(prefix, s);
                self.push_entry(name.clone(), s, SymbolKind::Nonterminal, false)?;
                Ok(name)
            },
        }
    }

    fn named_all(&mut self, syms: &Vec<u32>) -> (r: Result<Vec<String>, CompileError>)
        ensures
            match old(self)@.named_all(syms@) {
                Ok((v, names)) => r is Ok && r->Ok_0@.map_values(|n: String| n@) == names
                    && final(self)@ == v,
                Err(e) => r is Err && r->Err_0@ == e,
            },
    {
        let mut names: Vec<String> = Vec::new();
        let mut i: usize = 0;
        assert(syms@.skip(0) =~= syms@);
        assert(names@.map_values(|n: String| n@) =~= Seq::<Seq<char>>::empty());
        proof {
            if let Ok((v, all)) = self@.named_all(syms@) {
                assert(Seq::<Seq<char>>::empty() + all =~= all);
            }
        }
        while i < syms.len()
            invariant
                i <= syms.len(),
                old(self)@.named_all(syms@) == prepend_names(
                    names@.map_values(|n: String| n@),
                    self@.named_all(syms@.skip(i as int)),
                ),
            decreases syms.len() - i,
        {
            let ghost rest = syms@.skip(i as int);
            let ghost done = names@.map_values(|n: String| n@);
            assert(rest.first() == syms@[i as int]);
            assert(rest.drop_first() =~= syms@.skip(i + 1));
            let name = self.named(syms[i], "g_")?;
            names.push(name);
            proof {
                assert(names@.map_values(|n: String| n@) =~= done.push(name@));
                if let Ok((v, tail)) = self@.named_all(syms@.skip(i + 1)) {
                    assert(done + (seq![name@] + tail) =~= done.push(name@) + tail);
                }
            }
            i += 1;
        }
        proof {
            let shown = names@.map_values(|n: String| n@);
            assert(shown + Seq::<Seq<char>>::empty() =~= shown);
        }
        Ok(names)
    }

    /// The grammar's productions by name. A symbol of a production that has
    /// no row in the table yet gets one, under the name `g_` and its number.
    /// In the declarations a symbol stands under one name wherever it occurs,
    /// and different symbols stand under different names.
    pub fn decl_rules(&mut self) -> (r: Result<Vec<RuleDecl>, CompileError>)
        ensures
            match old(self)@.decl_rules() {
                Ok((v, decls)) => r is Ok && r->Ok_0@.map_values(|d: RuleDecl| d@) == decls
                    && final(self)@ == v,
                Err(e) => r is Err && r->Err_0@ == e,
            },
            r is Ok ==> final(self)@.renders(
                old(self)@.rules,
                r->Ok_0@.map_values(|d: RuleDecl| d@),
            ),
            r is Ok ==> final(self)@.extends(old(self)@),
            r is Ok && old(self)@.wf() ==> final(self)@.wf() && final(self)@.one_to_one(),
    {
        proof {
            lemma_decl_rules_renders(old(self)@);
            if let Ok((v, _)) = old(self)@.decl_rules() {
                lemma_adds_rows_extends(v, old(self)@);
            }
            if let Ok((v, _)) = old(self)@.decl_rules() {
                if old(self)@.wf() {
                    lemma_order_is_one_to_one(v);
                }
            }
        }
        let rules = rules_of(&self.grammar);
        let ghost view = productions_view(rules@);
        let mut decls: Vec<RuleDecl> = Vec::new();
        let mut k: usize = 0;
        assert(decls@.map_values(|d: RuleDecl| d@) =~= Seq::<
            (Seq<char>, Seq<Seq<char>>),
        >::empty());
        proof {
            if let Ok((v, all)) = self@.decl_rules() {
                assert(Seq::<(Seq<char>, Seq<Seq<char>>)>::empty() + all =~= all);
            }
        }
        while k < rules.len()
            invariant
                k <= rules.len(),
                view == productions_view(rules@),
                view == old(self)@.rules,
                old(self)@.decl_rules() == prepend_decls(
                    decls@.map_values(|d: RuleDecl| d@),
                    self@.decl_rules_from(view, k as int),
                ),
            decreases rules.len() - k,
        {
            let ghost done = decls@.map_values(|d: RuleDecl| d@);
            assert(view[k as int] == rules@[k as int]@);
            let lhs = self.named(rules[k].lhs, "g_")?;
            let rhs = self.named_all(&rules[k].rhs)?;
            let decl = RuleDecl { lhs, rhs };
            decls.push(decl);
            proof {
                assert(decls@.map_values(|d: RuleDecl| d@) =~= done.push(decl@));
                if let Ok((v, tail)) = self@.decl_rules_from(view, k + 1) {
                    assert(done + (seq![decl@] + tail) =~= done.push(decl@) + tail);
                }
            }
            k += 1;
        }
        proof {
            let shown = decls@.map_values(|d: RuleDecl| d@);
            assert(shown + Seq::<(Seq<char>, Seq<Seq<char>>)>::empty() =~= shown);
        }
        Ok(decls)
    }

    /// The names in the symbol table: each name once, in ascending order.
    pub fn decl_symbols(&self) -> (names: Vec<String>)
        ensures
            names@.map_values(|n: String| n@) == self@.decl_symbols(),
            self@.wf() ==> ascending(names@.map_values(|n: String| n@)),
    {
        let mut names: Vec<String> = Vec::new();
        let mut i: usize = 0;
        while i < self.syms.len()
            invariant
                i <= self.syms.len(),
                names@.len() == i,
                forall|j: int| 0 <= j < i ==> (#[trigger] names@[j])@ == self.syms@[j].name@,
            decreases self.syms.len() - i,
        {
            names.push(self.syms[i].name.clone());
            i += 1;
        }
        assert(names@.map_values(|n: String| n@) =~= self@.decl_symbols());
        names
    }

    /// The symbol from which generation for the rule `name` starts, if `name`
    /// names a nonterminal that owns a production.
    pub fn match_start(&self, name: &str) -> (r: Option<u32>)
        ensures
            r == self@.match_start(name@),
    {
        let wanted = String::from_str(name);
        match self.find_any_name(&wanted) {
            None => None,
            Some(i) => {
                let sym = self.syms[i].sym;
                let rules = rules_of(&self.grammar);
                if sym.kind == SymbolKind::Nonterminal && owns_production(&rules, sym.symbol) {
                    Some(sym.symbol)
                } else {
                    None
                }
            },
        }
    }

    /// The rows of the terminals that emit a character or nothing, in
    /// ascending order of name.
    pub fn stmt_char_from_sym(&self) -> (rows: Vec<SymbolEntry>)
        ensures
            rows@.map_values(|e: SymbolEntry| e@) == self@.stmt_char_from_sym(),
            self@.wf() ==> sorted_by_name(rows@.map_values(|e: SymbolEntry| e@)),
            holds_rows(self@.syms, rows@.map_values(|e: SymbolEntry| e@)),
    {
        proof {
            lemma_terminal_rows_sorted(self@.syms, self@.syms.len() as int);
            let all = terminal_rows(self@.syms, self@.syms.len() as int);
            assert forall|i: int| 0 <= i < all.len() implies self@.syms.contains(
                #[trigger] all[i],
            ) by {
                let j = choose|j: int| 0 <= j < self@.syms.len() && self@.syms[j] == all[i];
                assert(self@.syms[j] == all[i]);
            }
        }
        let mut rows: Vec<SymbolEntry> = Vec::new();
        let mut i: usize = 0;
        assert(rows@.map_values(|e: SymbolEntry| e@) =~= Seq::<SymbolEntryView>::empty());
        while i < self.syms.len()
            invariant
                i <= self.syms.len(),
                self@.syms == self.syms@.map_values(|e: SymbolEntry| e@),
                rows@.map_values(|e: SymbolEntry| e@) == terminal_rows(self@.syms, i as int),
            decreases self.syms.len() - i,
        {
            let entry = &self.syms[i];
            if entry.sym.kind != SymbolKind::Nonterminal {
                let ghost done = rows@.map_values(|e: SymbolEntry| e@);
                let row = SymbolEntry {
                    name: entry.name.clone(),
                    sym: entry.sym,
                    interned: entry.interned,
                };
                rows.push(row);
                assert(rows@.map_values(|e: SymbolEntry| e@) =~= done.push(self@.syms[i as int]));
            }
            i += 1;
        }
        rows
    }

    /// The negative constraints, each with the name of its marker. A marker
    /// that has no row in the table yet gets one, under the name `neg_` and
    /// its number.
    pub fn decl_negative_rules(&mut self) -> (r: Result<Vec<NegativeDecl>, CompileError>)
        ensures
            match old(self)@.decl_negative_rules() {
                Ok((v, decls)) => r is Ok && r->Ok_0@.map_values(|d: NegativeDecl| d@) == decls
                    && final(self)@ == v,
                Err(e) => r is Err && r->Err_0@ == e,
            },
            r is Ok ==> final(self)@.marks(
                old(self)@.negative_rules,
                r->Ok_0@.map_values(|d: NegativeDecl| d@),
            ),
            r is Ok ==> final(self)@.extends(old(self)@),
            r is Ok && old(self)@.wf() ==> final(self)@.wf() && final(self)@.one_to_one(),
    {
        proof {
            lemma_decl_negative_rules_marks(old(self)@);
            if let Ok((v, _)) = old(self)@.decl_negative_rules() {
                lemma_adds_rows_extends(v, old(self)@);
                if old(self)@.wf() {
                    lemma_order_is_one_to_one(v);
                }
            }
        }
        let ghost view = self@.negative_rules;
        let mut decls: Vec<NegativeDecl> = Vec::new();
        let mut k: usize = 0;
        assert(decls@.map_values(|d: NegativeDecl| d@) =~= Seq::<(Seq<char>, Seq<char>)>::empty());
        proof {
            if let Ok((v, all)) = self@.decl_negative_rules() {
                assert(Seq::<(Seq<char>, Seq<char>)>::empty() + all =~= all);
            }
        }
        while k < self.negative_rules.len()
            invariant
                k <= self.negative_rules.len(),
                view == old(self)@.negative_rules,
                view == self@.negative_rules,
                view == self.negative_rules@.map_values(|r: NegativeRuleMeta| r@),
                old(self)@.decl_negative_rules() == prepend_markers(
                    decls@.map_values(|d: NegativeDecl| d@),
                    self@.decl_negative_rules_from(view, k as int),
                ),
            decreases self.negative_rules.len() - k,
        {
            let ghost done = decls@.map_values(|d: NegativeDecl| d@);
            let neg = self.negative_rules[k].neg;
            let chars = self.negative_rules[k].chars.clone();
            assert(view[k as int] == self.negative_rules@[k as int]@);
            let name = self.named(neg, "neg_")?;
            let decl = NegativeDecl { name, chars };
            decls.push(decl);
            proof {
                assert(decls@.map_values(|d: NegativeDecl| d@) =~= done.push(decl@));
                if let Ok((v, tail)) = self@.decl_negative_rules_from(view, k + 1) {
                    assert(done + (seq![decl@] + tail) =~= done.push(decl@) + tail);
                }
            }
            k += 1;
        }
        proof {
            let shown = decls@.map_values(|d: NegativeDecl| d@);
            assert(shown + Seq::<(Seq<char>, Seq<char>)>::empty() =~= shown);
        }
        Ok(decls)
    }

    /// Compiles the rules in order, up to the first that cannot be
    /// compiled.
    pub fn process_rules(&mut self, rules: &Vec<Rule>) -> (r: Result<(), CompileError>)
        ensures
            match old(self)@.process_rules(rules@, 0) {
                Ok(v) => r is Ok && final(self)@ == v,
                Err(e) => r is Err && r->Err_0@ == e,
            },
            r is Ok ==> final(self)@.extends(old(self)@),
            r is Ok && old(self)@.wf() ==> final(self)@.wf(),
    {
        proof {
            lemma_process_rules_extends(old(self)@, rules@, 0);
        }
        let mut k: usize = 0;
        while k < rules.len()
            invariant
                k <= rules.len(),
                old(self)@.process_rules(rules@, 0) == self@.process_rules(rules@, k as int),
            decreases rules.len() - k,
        {
            self.process_rule(&rules[k])?;
            k += 1;
        }
        Ok(())
    }

    /// The productions of the grammar, in order.
    pub fn rules(&self) -> (rules: Vec<Production>)
        ensures
            productions_view(rules@) == self@.rules,
    {
        rules_of(&self.grammar)
    }

    /// The symbol table, the negative constraints and the weights of the
    /// weighted choices.
    pub fn into_tables(self) -> (tables: (
        Vec<SymbolEntry>,
        Vec<NegativeRuleMeta>,
        Vec<ChoiceWeights>,
    ))
        ensures
            tables.0@.map_values(|e: SymbolEntry| e@) == self@.syms,
            tables.1@.map_values(|r: NegativeRuleMeta| r@) == self@.negative_rules,
            tables.2@ == self@.weights,
    {
        (self.syms, self.negative_rules, self.weights)
    }
}

/// Whether `name` is the text `text`.
fn is_text(name: &String, text: &str) -> (b: bool)
    ensures
        b == (name@ == text@),
{
    *name == String::from_str(text)
}

fn well_known_kind(name: &String) -> (kind: Option<SymbolKind>)
    ensures
        kind == well_known(name@),
{
    if is_text(name, "SOI") || is_text(name, "EOI") {
        Some(SymbolKind::Null)
    } else if is_text(name, "ASCII_ALPHA") || is_text(name, "ASCII_ALPHANUMERIC") {
        Some(SymbolKind::Range('a', 'z'))
    } else if is_text(name, "ASCII_DIGIT") {
        Some(SymbolKind::Range('0', '9'))
    } else if is_text(name, "ANY") {
        Some(SymbolKind::Range(' ', '~'))
    } else {
        None
    }
}

/// The list that holds the one symbol.
fn one(s: u32) -> (v: Vec<u32>)
    ensures
        v@ == seq![s],
{
    let mut v = Vec::new();
    v.push(s);
    assert(v@ =~= seq![s]);
    v
}

} // verus!

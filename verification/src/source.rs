//! A compiled grammar by name: what a program that rebuilds the grammar
//! elsewhere has to declare.

use crate::error::{CompileError, CompileFault};
use crate::expr::Rule;
use crate::compile_laws::{lemma_holds_rows_trans, lemma_names_stay};
use crate::generator::{
    ascending, holds_rows, sorted_by_name, Generator, GeneratorView, NegativeDecl, RuleDecl,
};
use crate::symbol::{SymbolEntry, SymbolEntryView};
use vstd::prelude::*;

verus! {

/// The declarations of a compiled grammar.
pub struct GeneratorSource {
    /// The names of all symbols, in the order of the symbol table.
    pub symbols: Vec<String>,
    /// The productions, by the names of their symbols.
    pub rules: Vec<RuleDecl>,
    /// The terminals that emit a character or nothing.
    pub chars: Vec<SymbolEntry>,
    /// The negative constraints, by the names of their markers.
    pub negative_rules: Vec<NegativeDecl>,
}

/// The mathematical value of a [`GeneratorSource`].
pub struct SourceView {
    pub symbols: Seq<Seq<char>>,
    pub rules: Seq<(Seq<char>, Seq<Seq<char>>)>,
    pub chars: Seq<SymbolEntryView>,
    pub negative_rules: Seq<(Seq<char>, Seq<char>)>,
}

impl View for GeneratorSource {
    type V = SourceView;

    open spec fn view(&self) -> SourceView {
        SourceView {
            symbols: self.symbols@.map_values(|n: String| n@),
            rules: self.rules@.map_values(|d: RuleDecl| d@),
            chars: self.chars@.map_values(|e: SymbolEntry| e@),
            negative_rules: self.negative_rules@.map_values(|d: NegativeDecl| d@),
        }
    }
}

/// The declarations of the grammar that `rules` compile to: the rules are
/// compiled in order, the repetitions rewritten and the terminals
/// classified; then every symbol of a production is named.
pub open spec fn source_of(rules: Seq<Rule>) -> Result<SourceView, CompileFault> {
    match GeneratorView::empty().process_rules(rules, 0) {
        Err(e) => Err(e),
        Ok(v1) => match v1.rewrite_sequences().update_chars() {
            Err(e) => Err(e),
            Ok(v2) => match v2.decl_rules() {
                Err(e) => Err(e),
                Ok((v3, decls)) => match v3.decl_negative_rules() {
                    Err(e) => Err(e),
                    Ok((v4, markers)) => Ok(
                        SourceView {
                            symbols: v4.decl_symbols(),
                            rules: decls,
                            chars: v2.stmt_char_from_sym(),
                            negative_rules: markers,
                        },
                    ),
                },
            },
        },
    }
}

/// Whether every name that stands in a production, with a constraint or
/// with a terminal is among the names of the symbols.
pub open spec fn declares(source: SourceView) -> bool {
    &&& forall|k: int|
        0 <= k < source.rules.len() ==> source.symbols.contains((#[trigger] source.rules[k]).0)
    &&& forall|k: int, j: int|
        0 <= k < source.rules.len() && 0 <= j < source.rules[k].1.len()
            ==> source.symbols.contains(#[trigger] source.rules[k].1[j])
    &&& forall|k: int|
        0 <= k < source.negative_rules.len() ==> source.symbols.contains(
            (#[trigger] source.negative_rules[k]).0,
        )
    &&& forall|k: int|
        0 <= k < source.chars.len() ==> source.symbols.contains((#[trigger] source.chars[k]).name)
}

/// A name that the table gives a symbol is among the names of the table.
proof fn lemma_name_is_declared(v: GeneratorView, s: u32, name: Seq<char>)
    requires
        v.names(s, name),
    ensures
        v.decl_symbols().contains(name),
{
    let i = choose|i: int|
        0 <= i < v.syms.len() && (#[trigger] v.syms[i]).symbol == s && v.syms[i].name == name;
    assert(v.decl_symbols()[i] == name);
}

/// The declarations taken from a table and the tables before it name nothing
/// that the table does not hold.
proof fn lemma_declares(
    v2: GeneratorView,
    v3: GeneratorView,
    v4: GeneratorView,
    decls: Seq<(Seq<char>, Seq<Seq<char>>)>,
    markers: Seq<(Seq<char>, Seq<char>)>,
    chars: Seq<SymbolEntryView>,
)
    requires
        v3.renders(v2.rules, decls),
        v4.marks(v3.negative_rules, markers),
        v3.extends(v2),
        v4.extends(v3),
        holds_rows(v2.syms, chars),
    ensures
        declares(
            SourceView { symbols: v4.decl_symbols(), rules: decls, chars, negative_rules: markers },
        ),
{
    let symbols = v4.decl_symbols();
    assert forall|k: int| 0 <= k < decls.len() implies symbols.contains((#[trigger] decls[k]).0) by {
        lemma_names_stay(v4, v3, v2.rules[k].0, decls[k].0);
        lemma_name_is_declared(v4, v2.rules[k].0, decls[k].0);
    }
    assert forall|k: int, j: int|
        0 <= k < decls.len() && 0 <= j < decls[k].1.len() implies symbols.contains(
        #[trigger] decls[k].1[j],
    ) by {
        lemma_names_stay(v4, v3, v2.rules[k].1[j], decls[k].1[j]);
        lemma_name_is_declared(v4, v2.rules[k].1[j], decls[k].1[j]);
    }
    assert forall|k: int| 0 <= k < markers.len() implies symbols.contains(
        (#[trigger] markers[k]).0,
    ) by {
        lemma_name_is_declared(v4, v3.negative_rules[k].0, markers[k].0);
    }
    lemma_holds_rows_trans(chars, v2.syms, v3.syms);
    lemma_holds_rows_trans(chars, v3.syms, v4.syms);
    assert forall|k: int| 0 <= k < chars.len() implies symbols.contains(
        (#[trigger] chars[k]).name,
    ) by {
        assert(v4.syms.contains(chars[k]));
        let i = choose|i: int| 0 <= i < v4.syms.len() && v4.syms[i] == chars[k];
        assert(symbols[i] == chars[k].name);
    }
}

/// Compiles `rules` and gives the grammar's declarations by name: the names
/// of the symbols and the terminals in ascending order of name, each name
/// once, and among the names of the symbols every name that the productions,
/// the constraints and the terminals are given by.
pub fn generate_cfg_generator(rules: &Vec<Rule>) -> (r: Result<GeneratorSource, CompileError>)
    ensures
        match source_of(rules@) {
            Ok(source) => r is Ok && r->Ok_0@ == source,
            Err(e) => r is Err && r->Err_0@ == e,
        },
        r is Ok ==> ascending(r->Ok_0@.symbols) && sorted_by_name(r->Ok_0@.chars) && declares(
            r->Ok_0@,
        ),
{
    let mut generator = Generator::new();
    generator.process_rules(rules)?;
    generator.rewrite_sequences();
    generator.update_chars()?;
    let chars = generator.stmt_char_from_sym();
    let ghost v2 = generator@;
    let rules = generator.decl_rules()?;
    let ghost v3 = generator@;
    let negative_rules = generator.decl_negative_rules()?;
    let symbols = generator.decl_symbols();
    proof {
        lemma_declares(
            v2,
            v3,
            generator@,
            rules@.map_values(|d: RuleDecl| d@),
            negative_rules@.map_values(|d: NegativeDecl| d@),
            chars@.map_values(|e: SymbolEntry| e@),
        );
    }
    Ok(GeneratorSource { symbols, rules, chars, negative_rules })
}

} // verus!

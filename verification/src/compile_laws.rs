//! What holds of the grammar compiler whatever it is given.

use crate::derivation::kind_of;
use crate::error::CompileFault;
use crate::expr::{Expr, Rule, RuleType};
use crate::generator::{
    find_any_name, find_range, find_symbol, holds_rows, lemma_find_any_name_found,
    lemma_find_range_prefix, lemma_find_symbol_found, place_from, sorted_by_name,
    symbols_distinct, GeneratorView,
};
use crate::names::{lemma_name_lt_irreflexive, lemma_name_lt_total, lemma_name_lt_transitive, name_lt};
use crate::rules::is_terminal;
use crate::symbol::{SymbolEntryView, SymbolKind};
use vstd::prelude::*;

verus! {

/// Whether this state is `v` with rows added to the symbol table and nothing
/// else changed.
pub open spec fn adds_rows(after: GeneratorView, v: GeneratorView) -> bool {
    &&& after == (GeneratorView { syms: after.syms, ..v })
    &&& holds_rows(after.syms, v.syms)
    &&& v.wf() ==> after.wf()
}

/// The place of a row lies behind the rows whose names come before its name
/// and before a row whose name does not.
pub proof fn lemma_place(syms: Seq<SymbolEntryView>, name: Seq<char>, i: int)
    requires
        0 <= i <= syms.len(),
    ensures
        i <= place_from(syms, name, i) <= syms.len(),
        forall|j: int|
            i <= j < place_from(syms, name, i) ==> name_lt((#[trigger] syms[j]).name, name),
        place_from(syms, name, i) < syms.len() ==> !name_lt(
            syms[place_from(syms, name, i)].name,
            name,
        ),
    decreases syms.len() - i,
{
    if i < syms.len() && name_lt(syms[i].name, name) {
        lemma_place(syms, name, i + 1);
    }
}

/// A row that is added stands in the table under its name; the rows of
/// before are all there; and the table stays in order, one row for a name
/// and one for a symbol.
pub proof fn lemma_with_entry(
    v: GeneratorView,
    name: Seq<char>,
    symbol: u32,
    kind: SymbolKind,
    interned: bool,
)
    ensures
        v.with_entry(name, symbol, kind, interned) matches Ok(after) ==> adds_rows(after, v)
            && after.names(symbol, name) && after.syms.contains(
            SymbolEntryView { name, symbol, kind, interned },
        ),
{
    if let Ok(after) = v.with_entry(name, symbol, kind, interned) {
        let old = v.syms;
        let n = old.len() as int;
        let p = place_from(old, name, 0);
        let row = SymbolEntryView { name, symbol, kind, interned };
        let new = after.syms;
        lemma_place(old, name, 0);
        lemma_find_any_name_found(old, name, n);
        lemma_find_symbol_found(old, symbol, n);
        assert(new.len() == n + 1);
        assert(new[p] == row);
        assert forall|i: int| 0 <= i < n implies new.contains(#[trigger] old[i]) by {
            if i < p {
                assert(new[i] == old[i]);
            } else {
                assert(new[i + 1] == old[i]);
            }
        }
        if v.wf() {
            assert forall|i: int, j: int| 0 <= i < j < new.len() implies name_lt(
                (#[trigger] new[i]).name,
                (#[trigger] new[j]).name,
            ) && new[i].symbol != new[j].symbol by {
                let a = if i < p {
                    i
                } else {
                    i - 1
                };
                let b = if j < p {
                    j
                } else {
                    j - 1
                };
                if i != p {
                    assert(new[i] == old[a]);
                }
                if j != p {
                    assert(new[j] == old[b]);
                }
                if i == p {
                    assert(old[p].name != name);
                    if !name_lt(name, old[p].name) {
                        lemma_name_lt_total(name, old[p].name);
                    }
                    if b > p {
                        lemma_name_lt_transitive(name, old[p].name, old[b].name);
                    }
                } else if j == p {
                    assert(name_lt(old[a].name, name));
                }
            }
        }
    }
}

/// Every state continues itself.
pub proof fn lemma_extends_refl(v: GeneratorView)
    ensures
        v.extends(v),
{
    assert(v.rules.is_prefix_of(v.rules));
    assert(v.sequences.is_prefix_of(v.sequences));
    assert(v.ranges.is_prefix_of(v.ranges));
    assert(v.negative_rules.is_prefix_of(v.negative_rules));
    assert(v.weights.is_prefix_of(v.weights));
    assert forall|i: int| 0 <= i < v.syms.len() implies v.syms.contains(#[trigger] v.syms[i]) by {}
}

/// The rows of an earlier table stay through any number of additions.
pub proof fn lemma_holds_rows_trans(
    a: Seq<SymbolEntryView>,
    b: Seq<SymbolEntryView>,
    c: Seq<SymbolEntryView>,
)
    requires
        holds_rows(b, a),
        holds_rows(c, b),
    ensures
        holds_rows(c, a),
{
    assert forall|i: int| 0 <= i < a.len() implies c.contains(#[trigger] a[i]) by {
        assert(b.contains(a[i]));
        let j = choose|j: int| 0 <= j < b.len() && b[j] == a[i];
        assert(c.contains(b[j]));
    }
}

/// Continuing is transitive.
pub proof fn lemma_extends_trans(a: GeneratorView, b: GeneratorView, c: GeneratorView)
    requires
        b.extends(a),
        c.extends(b),
    ensures
        c.extends(a),
{
    lemma_holds_rows_trans(a.syms, b.syms, c.syms);
}

/// A state with rows added continues the state before.
pub proof fn lemma_adds_rows_extends(after: GeneratorView, v: GeneratorView)
    requires
        adds_rows(after, v),
    ensures
        after.extends(v),
{
    lemma_extends_refl(v);
}

/// In a table in order, a name is found at the one row that has it.
pub proof fn lemma_find_any_name_at(syms: Seq<SymbolEntryView>, name: Seq<char>, k: int)
    requires
        sorted_by_name(syms),
        0 <= k < syms.len(),
        syms[k].name == name,
    ensures
        find_any_name(syms, name, syms.len() as int) == Some(k),
{
    lemma_find_any_name_found(syms, name, syms.len() as int);
    lemma_name_lt_irreflexive(name);
    let found = find_any_name(syms, name, syms.len() as int);
    if found is None {
        assert(syms[k].name != name);
    } else {
        let i = found->Some_0;
        if i < k {
            assert(name_lt(syms[i].name, syms[k].name));
        } else if k < i {
            assert(name_lt(syms[k].name, syms[i].name));
        }
    }
}

/// Interning a name is idempotent: asked again for the same name, the
/// compiler gives the same symbol and changes nothing.
pub proof fn lemma_intern_ident_idempotent(v: GeneratorView, name: Seq<char>)
    requires
        v.wf(),
    ensures
        v.intern_ident(name) matches Ok((after, symbol)) ==> after.intern_ident(name) == Ok::<
            _,
            CompileFault,
        >((after, symbol)),
{
    if let Ok((after, symbol)) = v.intern_ident(name) {
        let n = v.syms.len() as int;
        if find_any_name(v.syms, name, n) is None {
            let (v1, s) = v.fresh()->Ok_0;
            lemma_with_entry(v1, name, symbol, SymbolKind::Nonterminal, true);
            let row = SymbolEntryView {
                name,
                symbol,
                kind: SymbolKind::Nonterminal,
                interned: true,
            };
            let k = choose|k: int| 0 <= k < after.syms.len() && after.syms[k] == row;
            lemma_find_any_name_at(after.syms, name, k);
        }
    }
}

/// Interning a character range is idempotent: asked again for the same two
/// characters, the compiler gives the same symbol and changes nothing.
pub proof fn lemma_intern_chars_idempotent(v: GeneratorView, lo: char, hi: char)
    ensures
        v.intern_chars(lo, hi) matches Ok((after, symbol)) ==> after.intern_chars(lo, hi) == Ok::<
            _,
            CompileFault,
        >((after, symbol)),
{
    if let Ok((after, symbol)) = v.intern_chars(lo, hi) {
        let n = v.ranges.len() as int;
        if find_range(v.ranges, lo, hi, n) is None {
            lemma_find_range_prefix(v.ranges, after.ranges, lo, hi, n);
            assert(find_range(after.ranges, lo, hi, n + 1) == Some(n));
        }
    }
}

/// In a table in order one name stands for one symbol and one symbol under
/// one name.
pub proof fn lemma_names_are_one_to_one(
    v: GeneratorView,
    s1: u32,
    n1: Seq<char>,
    s2: u32,
    n2: Seq<char>,
)
    requires
        v.wf(),
        v.names(s1, n1),
        v.names(s2, n2),
    ensures
        (s1 == s2) == (n1 == n2),
{
    let i = choose|i: int|
        0 <= i < v.syms.len() && (#[trigger] v.syms[i]).symbol == s1 && v.syms[i].name == n1;
    let j = choose|j: int|
        0 <= j < v.syms.len() && (#[trigger] v.syms[j]).symbol == s2 && v.syms[j].name == n2;
    lemma_name_lt_irreflexive(n1);
    if i < j {
        assert(name_lt(v.syms[i].name, v.syms[j].name));
        assert(v.syms[i].symbol != v.syms[j].symbol);
    } else if j < i {
        assert(name_lt(v.syms[j].name, v.syms[i].name));
        assert(v.syms[j].symbol != v.syms[i].symbol);
    }
}

/// The names of a table in order tell its symbols apart.
pub proof fn lemma_order_is_one_to_one(v: GeneratorView)
    requires
        v.wf(),
    ensures
        v.one_to_one(),
{
    assert forall|s1: u32, n1: Seq<char>, s2: u32, n2: Seq<char>|
        (#[trigger] v.names(s1, n1)) && (#[trigger] v.names(s2, n2)) implies ((s1 == s2) == (n1
        == n2)) by {
        lemma_names_are_one_to_one(v, s1, n1, s2, n2);
    }
}

/// A name that a table gives a symbol is given by every table that holds the
/// rows of that table.
pub proof fn lemma_names_stay(after: GeneratorView, v: GeneratorView, s: u32, name: Seq<char>)
    requires
        holds_rows(after.syms, v.syms),
        v.names(s, name),
    ensures
        after.names(s, name),
{
    let i = choose|i: int|
        0 <= i < v.syms.len() && (#[trigger] v.syms[i]).symbol == s && v.syms[i].name == name;
    assert(after.syms.contains(v.syms[i]));
    let j = choose|j: int| 0 <= j < after.syms.len() && after.syms[j] == v.syms[i];
    assert(after.syms[j].symbol == s);
}

/// Interning a character range only adds, and adds no repetition.
pub proof fn lemma_intern_chars_extends(v: GeneratorView, lo: char, hi: char)
    ensures
        v.intern_chars(lo, hi) matches Ok((after, s)) ==> after.extends(v) && after.sequences
            == v.sequences && (v.wf() ==> after.wf()),
{
    lemma_extends_refl(v);
    if find_range(v.ranges, lo, hi, v.ranges.len() as int) is None {
        crate::generator::lemma_find_range_none(v.ranges, lo, hi, v.ranges.len() as int);
    }
    if let Ok((v1, symbol)) = v.fresh() {
        lemma_with_entry(
            v1,
            crate::names::numbered("s_"@, symbol),
            symbol,
            crate::generator::range_kind(lo, hi),
            false,
        );
    }
}

/// Interning a name only adds.
pub proof fn lemma_intern_ident_extends(v: GeneratorView, name: Seq<char>)
    ensures
        v.intern_ident(name) matches Ok((after, s)) ==> after.extends(v) && after.sequences
            == v.sequences && (v.wf() ==> after.wf()),
{
    lemma_extends_refl(v);
    if let Ok((v1, symbol)) = v.fresh() {
        lemma_with_entry(v1, name, symbol, SymbolKind::Nonterminal, true);
    }
}

/// Naming an auxiliary symbol or a marker only adds.
pub proof fn lemma_add_rule_extends(v: GeneratorView, lhs: u32)
    ensures
        v.add_rule(lhs) matches Ok(after) ==> adds_rows(after, v) && after.extends(v),
        v.add_negative_sym(lhs) matches Ok(after) ==> adds_rows(after, v) && after.extends(v),
{
    lemma_extends_refl(v);
    lemma_with_entry(v, crate::names::numbered("r_"@, lhs), lhs, SymbolKind::Nonterminal, false);
    lemma_with_entry(v, crate::names::numbered("neg_"@, lhs), lhs, SymbolKind::Nonterminal, false);
}

/// Compiling a literal touches nothing that the compiler held.
pub proof fn lemma_intern_str_extends(v: GeneratorView, chars: Seq<char>)
    ensures
        v.intern_str(chars) matches Ok((after, syms)) ==> after.extends(v) && after.sequences
            == v.sequences && syms.len() == chars.len() && (v.wf() ==> after.wf()),
    decreases chars.len(),
{
    lemma_extends_refl(v);
    if chars.len() > 0 {
        if let Ok((v1, s)) = v.intern_chars(chars.first(), chars.first()) {
            lemma_intern_str_extends(v1, chars.drop_first());
            lemma_intern_chars_extends(v, chars.first(), chars.first());
            if let Ok((v2, rest)) = v1.intern_str(chars.drop_first()) {
                lemma_extends_trans(v, v1, v2);
                assert((seq![s] + rest).len() == chars.len());
            }
        }
    }
}

/// Forbidding the letters adds constraints and nothing else.
pub proof fn lemma_forbid_letters_extends(v: GeneratorView, neg: u32, n: int)
    ensures
        v.forbid_letters(neg, n).extends(v),
        v.forbid_letters(neg, n).sequences == v.sequences,
        v.forbid_letters(neg, n).syms == v.syms,
        v.forbid_letters(neg, n).ranges == v.ranges,
    decreases n,
{
    lemma_extends_refl(v);
    if n > 0 {
        lemma_forbid_letters_extends(v, neg, n - 1);
    }
}

/// A state that differs from `v` in its productions, repetitions,
/// constraints and weights only, each with more at its end, continues `v`.
proof fn lemma_grown(after: GeneratorView, v: GeneratorView)
    requires
        v.num_syms <= after.num_syms,
        after.syms == v.syms,
        after.ranges == v.ranges,
        v.rules.is_prefix_of(after.rules),
        v.sequences.is_prefix_of(after.sequences),
        v.negative_rules.is_prefix_of(after.negative_rules),
        v.weights.is_prefix_of(after.weights),
    ensures
        after.extends(v),
{
    lemma_extends_refl(v);
}

/// Taking a symbol only adds.
pub proof fn lemma_fresh_extends(v: GeneratorView)
    ensures
        v.fresh() matches Ok((after, _)) ==> after.extends(v) && (v.wf() ==> after.wf()),
{
    if let Ok((after, _)) = v.fresh() {
        lemma_grown(after, v);
    }
}

/// Giving a choice its alternatives only adds.
pub proof fn lemma_finish_choice_extends(
    v: GeneratorView,
    lhs: u32,
    left: Seq<u32>,
    right: Seq<u32>,
    weights: Option<(u32, u32)>,
)
    ensures
        v.finish_choice(lhs, left, right, weights) matches Ok((after, _)) ==> after.extends(v)
            && (v.wf() ==> after.wf()),
{
    let v1 = v.with_rule(lhs, left).with_rule(lhs, right);
    lemma_grown(v1, v);
    lemma_add_rule_extends(v1, lhs);
    if let Ok(v2) = v1.add_rule(lhs) {
        if let Ok((v3, _)) = v.finish_choice(lhs, left, right, weights) {
            lemma_grown(v3, v2);
            lemma_extends_trans(v, v1, v2);
            lemma_extends_trans(v, v2, v3);
        }
    }
}

/// Giving an option its alternatives only adds.
pub proof fn lemma_finish_option_extends(v: GeneratorView, lhs: u32, rhs: Seq<u32>)
    ensures
        v.with_rule(lhs, rhs).with_rule(lhs, Seq::empty()).add_rule(lhs) matches Ok(after)
            ==> after.extends(v) && (v.wf() ==> after.wf()),
{
    let v1 = v.with_rule(lhs, rhs).with_rule(lhs, Seq::empty());
    lemma_grown(v1, v);
    lemma_add_rule_extends(v1, lhs);
    if let Ok(v2) = v1.add_rule(lhs) {
        lemma_extends_trans(v, v1, v2);
    }
}

/// Registering what may not follow a marker only adds.
pub proof fn lemma_forbid_extends(v: GeneratorView, neg: u32, operand: Expr)
    ensures
        v.forbid(neg, operand) matches Ok((after, _)) ==> after.extends(v) && (v.wf()
            ==> after.wf()),
{
    if let Ok((after, _)) = v.forbid(neg, operand) {
        lemma_forbid_letters_extends(v, neg, 52);
        let grown = match operand {
            Expr::Str(chars) => v.add_negative_rule(neg, chars@),
            _ => v.forbid_letters(neg, 52),
        };
        if operand is Str {
            lemma_grown(grown, v);
        }
        lemma_grown(after, grown);
        lemma_extends_trans(v, grown, after);
    }
}

/// What stands between the sides of a sequence only adds.
pub proof fn lemma_whitespace_extends(v: GeneratorView, ty: RuleType)
    ensures
        v.whitespace(ty) matches Ok((after, _)) ==> after.extends(v) && (v.wf() ==> after.wf()),
{
    lemma_extends_refl(v);
    lemma_intern_ident_extends(v, "WHITESPACE"@);
}

/// Whether `after` continues `v` and is in order if `v` is.
pub open spec fn follows(after: GeneratorView, v: GeneratorView) -> bool {
    after.extends(v) && (v.wf() ==> after.wf())
}

/// Following is transitive.
pub proof fn lemma_follows_trans(a: GeneratorView, b: GeneratorView, c: GeneratorView)
    requires
        follows(b, a),
        follows(c, b),
    ensures
        follows(c, a),
{
    lemma_extends_trans(a, b, c);
}

/// Compiling only adds: the state after an expression continues the state
/// before it, so no symbol changes its name or kind and no production is
/// lost; and the table stays in order and the bounds of the pending
/// repetitions too.
pub proof fn lemma_process_expr_extends(v: GeneratorView, expr: Expr, ty: RuleType)
    ensures
        v.process_expr(expr, ty) matches Ok((after, syms)) ==> follows(after, v),
    decreases expr,
{
    lemma_extends_refl(v);
    match expr {
        Expr::Str(chars) => {
            lemma_intern_str_extends(v, chars@);
        },
        Expr::Insens(chars) => {
            lemma_intern_str_extends(v, chars@);
        },
        Expr::Range(lo, hi) => {
            lemma_intern_chars_extends(v, lo, hi);
        },
        Expr::Ident(name) => {
            lemma_intern_ident_extends(v, name@);
        },
        Expr::Sequence(left, right) => {
            lemma_process_expr_extends(v, *left, ty);
            if let Ok((v1, l)) = v.process_expr(*left, ty) {
                lemma_whitespace_extends(v1, ty);
                if let Ok((v2, ws)) = v1.whitespace(ty) {
                    lemma_process_expr_extends(v2, *right, ty);
                    if let Ok((v3, r)) = v2.process_expr(*right, ty) {
                        lemma_follows_trans(v, v1, v2);
                        lemma_follows_trans(v, v2, v3);
                    }
                }
            }
        },
        Expr::Choice(left, right, weights) => {
            lemma_fresh_extends(v);
            if let Ok((v1, lhs)) = v.fresh() {
                lemma_process_expr_extends(v1, *left, ty);
                if let Ok((v2, l)) = v1.process_expr(*left, ty) {
                    lemma_process_expr_extends(v2, *right, ty);
                    if let Ok((v3, r)) = v2.process_expr(*right, ty) {
                        lemma_finish_choice_extends(v3, lhs, l, r, weights);
                        if let Ok((v4, _)) = v3.finish_choice(lhs, l, r, weights) {
                            lemma_follows_trans(v, v1, v2);
                            lemma_follows_trans(v, v2, v3);
                            lemma_follows_trans(v, v3, v4);
                        }
                    }
                }
            }
        },
        Expr::Opt(inner) => {
            lemma_fresh_extends(v);
            if let Ok((v1, lhs)) = v.fresh() {
                lemma_process_expr_extends(v1, *inner, ty);
                if let Ok((v2, rhs)) = v1.process_expr(*inner, ty) {
                    lemma_finish_option_extends(v2, lhs, rhs);
                    if let Ok(v3) = v2.with_rule(lhs, rhs).with_rule(lhs, Seq::empty()).add_rule(
                        lhs,
                    ) {
                        lemma_follows_trans(v, v1, v2);
                        lemma_follows_trans(v, v2, v3);
                    }
                }
            }
        },
        Expr::Rep(inner, min, max) => {
            lemma_fresh_extends(v);
            if let Ok((v1, lhs)) = v.fresh() {
                lemma_process_expr_extends(v1, *inner, ty);
                if let Ok((v2, rhs)) = v1.process_expr(*inner, ty) {
                    if crate::generator::bounds_in_order(min, max) {
                        lemma_finish_repetition_extends(v2, lhs, rhs, min, max);
                        if let Ok((v3, _)) = v2.finish_repetition(lhs, rhs, min, max) {
                            lemma_follows_trans(v, v1, v2);
                            lemma_follows_trans(v, v2, v3);
                        }
                    }
                }
            }
        },
        Expr::PosPred(_) => {},
        Expr::NegPred(inner) => {
            lemma_fresh_extends(v);
            if let Ok((v1, neg)) = v.fresh() {
                lemma_add_rule_extends(v1, neg);
                if let Ok(v2) = v1.add_negative_sym(neg) {
                    lemma_forbid_extends(v2, neg, *inner);
                    if let Ok((v3, _)) = v2.forbid(neg, *inner) {
                        lemma_follows_trans(v, v1, v2);
                        lemma_follows_trans(v, v2, v3);
                    }
                }
            }
        },
        Expr::Weight => {},
    }
}

/// Making a repetition only adds, and keeps the bounds in order where the
/// new bounds are.
pub proof fn lemma_finish_repetition_extends(
    v: GeneratorView,
    lhs: u32,
    rhs: Seq<u32>,
    min: u32,
    max: Option<u32>,
)
    requires
        crate::generator::bounds_in_order(min, max),
    ensures
        v.finish_repetition(lhs, rhs, min, max) matches Ok((after, _)) ==> after.extends(v) && (
        v.wf() ==> after.wf()),
{
    lemma_extends_refl(v);
    if rhs.len() == 1 {
        let v1 = v.with_sequence(lhs, rhs[0], min, max);
        lemma_grown(v1, v);
        lemma_add_rule_extends(v1, lhs);
        if let Ok(v2) = v1.add_rule(lhs) {
            lemma_extends_trans(v, v1, v2);
        }
    } else if let Ok((v0, item)) = v.fresh() {
        lemma_fresh_extends(v);
        let v1 = v0.with_rule(item, rhs);
        lemma_grown(v1, v0);
        lemma_add_rule_extends(v1, item);
        if let Ok(v2) = v1.add_rule(item) {
            let v3 = v2.with_sequence(lhs, item, min, max);
            lemma_grown(v3, v2);
            lemma_add_rule_extends(v3, lhs);
            if let Ok(v4) = v3.add_rule(lhs) {
                lemma_extends_trans(v, v0, v1);
                lemma_extends_trans(v, v1, v2);
                lemma_extends_trans(v, v2, v3);
                lemma_extends_trans(v, v3, v4);
            }
        }
    }
}

/// Compiling a rule only adds, and keeps the table and the bounds of the
/// pending repetitions in order.
pub proof fn lemma_process_rule_extends(v: GeneratorView, name: Seq<char>, ty: RuleType, expr: Expr)
    ensures
        v.process_rule(name, ty, expr) matches Ok((after, _)) ==> after.extends(v) && (v.wf()
            ==> after.wf()),
{
    lemma_intern_ident_extends(v, name);
    if let Ok((v1, lhs)) = v.intern_ident(name) {
        lemma_process_expr_extends(v1, expr, ty);
        if let Ok((v2, rhs)) = v1.process_expr(expr, ty) {
            let v3 = v2.with_rule(lhs, rhs);
            lemma_grown(v3, v2);
            lemma_follows_trans(v, v1, v2);
            lemma_follows_trans(v, v2, v3);
        }
    }
}

/// Compiling a list of rules only adds, and keeps the table and the bounds
/// of the pending repetitions in order.
pub proof fn lemma_process_rules_extends(v: GeneratorView, rules: Seq<Rule>, k: int)
    ensures
        v.process_rules(rules, k) matches Ok(after) ==> after.extends(v) && (v.wf()
            ==> after.wf()),
    decreases rules.len() - k,
{
    lemma_extends_refl(v);
    if 0 <= k < rules.len() {
        lemma_process_rule_extends(v, rules[k].name@, rules[k].ty, rules[k].expr);
        if let Ok((v1, _)) = v.process_rule(rules[k].name@, rules[k].ty, rules[k].expr) {
            lemma_process_rules_extends(v1, rules, k + 1);
            if let Ok(v2) = v1.process_rules(rules, k + 1) {
                lemma_extends_trans(v, v1, v2);
            }
        }
    }
}

/// Whether the table `b` is the table `a` with kinds given to rows that had
/// none: the rows stand for the same symbols under the same names, and a kind
/// that `a` assigns is the kind that `b` assigns.
pub open spec fn classifies(a: Seq<SymbolEntryView>, b: Seq<SymbolEntryView>) -> bool {
    &&& a.len() == b.len()
    &&& forall|i: int|
        0 <= i < a.len() ==> {
            &&& (#[trigger] b[i]).name == a[i].name
            &&& b[i].symbol == a[i].symbol
            &&& b[i].interned == a[i].interned
            &&& a[i].kind != SymbolKind::Nonterminal ==> b[i].kind == a[i].kind
        }
}

/// Giving kinds keeps the table in order.
pub proof fn lemma_classifies_keeps_order(a: Seq<SymbolEntryView>, b: Seq<SymbolEntryView>)
    requires
        classifies(a, b),
        sorted_by_name(a),
        symbols_distinct(a),
    ensures
        sorted_by_name(b),
        symbols_distinct(b),
{
    assert forall|i: int, j: int| 0 <= i < j < b.len() implies name_lt(
        (#[trigger] b[i]).name,
        (#[trigger] b[j]).name,
    ) && b[i].symbol != b[j].symbol by {
        assert(name_lt(a[i].name, a[j].name));
        assert(a[i].symbol != a[j].symbol);
    }
}

/// The row of a symbol is found by the symbols of the rows alone.
proof fn lemma_find_symbol_same(
    a: Seq<SymbolEntryView>,
    b: Seq<SymbolEntryView>,
    s: u32,
    n: int,
)
    requires
        n <= a.len(),
        n <= b.len(),
        forall|i: int| 0 <= i < n ==> (#[trigger] b[i]).symbol == a[i].symbol,
    ensures
        find_symbol(a, s, n) == find_symbol(b, s, n),
    decreases n,
{
    if n > 0 {
        lemma_find_symbol_same(a, b, s, n - 1);
    }
}

/// A kind, once assigned, stays: classification changes the kind of no symbol
/// that has one.
pub proof fn lemma_kind_is_kept(a: Seq<SymbolEntryView>, b: Seq<SymbolEntryView>, s: u32)
    requires
        classifies(a, b),
        kind_of(a, s) != SymbolKind::Nonterminal,
    ensures
        kind_of(b, s) == kind_of(a, s),
{
    lemma_find_symbol_same(a, b, s, a.len() as int);
    lemma_find_symbol_found(a, s, a.len() as int);
}

/// Classifying one symbol touches the symbol table only, gives kinds only to
/// rows without one, and leaves the symbol, if it is a terminal, with a kind.
pub proof fn lemma_classify(v: GeneratorView, t: u32)
    ensures
        v.classify(t) matches Ok(after) ==> {
            &&& after == (GeneratorView { syms: after.syms, ..v })
            &&& classifies(v.syms, after.syms)
            &&& is_terminal(v.rules, t as int) ==> kind_of(after.syms, t)
                != SymbolKind::Nonterminal
        },
{
    if let Ok(after) = v.classify(t) {
        lemma_find_symbol_found(v.syms, t, v.syms.len() as int);
        lemma_find_symbol_same(v.syms, after.syms, t, v.syms.len() as int);
    }
}

/// Giving kinds twice gives kinds.
proof fn lemma_classifies_trans(
    a: Seq<SymbolEntryView>,
    b: Seq<SymbolEntryView>,
    c: Seq<SymbolEntryView>,
)
    requires
        classifies(a, b),
        classifies(b, c),
    ensures
        classifies(a, c),
{
    assert forall|i: int| 0 <= i < a.len() implies {
        &&& (#[trigger] c[i]).name == a[i].name
        &&& c[i].symbol == a[i].symbol
        &&& c[i].interned == a[i].interned
        &&& a[i].kind != SymbolKind::Nonterminal ==> c[i].kind == a[i].kind
    } by {
        assert(b[i].name == a[i].name);
    }
}

/// Classifying the symbols from `t` up to `n` touches the symbol table only,
/// gives kinds only to rows without one, and leaves every terminal among
/// these symbols with a kind.
pub proof fn lemma_classify_from(v: GeneratorView, t: int, n: int)
    requires
        0 <= t,
        n <= u32::MAX,
    ensures
        v.classify_from(t, n) matches Ok(after) ==> {
            &&& after == (GeneratorView { syms: after.syms, ..v })
            &&& classifies(v.syms, after.syms)
            &&& forall|s: int|
                t <= s < n && is_terminal(v.rules, s) ==> #[trigger] kind_of(
                    after.syms,
                    s as u32,
                ) != SymbolKind::Nonterminal
        },
    decreases n - t,
{
    if t < n {
        lemma_classify(v, t as u32);
        if let Ok(v1) = v.classify(t as u32) {
            lemma_classify_from(v1, t + 1, n);
            if let Ok(after) = v1.classify_from(t + 1, n) {
                lemma_classifies_trans(v.syms, v1.syms, after.syms);
                assert forall|s: int| t <= s < n && is_terminal(v.rules, s) implies #[trigger] kind_of(
                    after.syms,
                    s as u32,
                ) != SymbolKind::Nonterminal by {
                    if s == t {
                        lemma_kind_is_kept(v1.syms, after.syms, t as u32);
                    }
                }
            }
        }
    }
}

/// After classification no reference dangles: every symbol of the grammar
/// either owns a production or is a terminal with a kind. The productions are
/// untouched, no symbol that had a kind has another, and the table stays in
/// order.
pub proof fn lemma_update_chars_classifies(v: GeneratorView)
    ensures
        v.update_chars() matches Ok(after) ==> {
            &&& after == (GeneratorView { syms: after.syms, ..v })
            &&& classifies(v.syms, after.syms)
            &&& v.wf() ==> after.wf()
            &&& forall|s: int|
                0 <= s < v.num_syms && is_terminal(after.rules, s) ==> #[trigger] kind_of(
                    after.syms,
                    s as u32,
                ) != SymbolKind::Nonterminal
        },
{
    lemma_classify_from(v, 0, v.num_syms as int);
    if let Ok(after) = v.update_chars() {
        if v.wf() {
            lemma_classifies_keeps_order(v.syms, after.syms);
        }
    }
}

/// A symbol that is named stands in the table under its name.
pub proof fn lemma_named(v: GeneratorView, s: u32, prefix: Seq<char>)
    ensures
        v.named(s, prefix) matches Ok((after, name)) ==> adds_rows(after, v) && after.names(
            s,
            name,
        ),
{
    lemma_extends_refl(v);
    lemma_find_symbol_found(v.syms, s, v.syms.len() as int);
    lemma_with_entry(v, crate::names::numbered(prefix, s), s, SymbolKind::Nonterminal, false);
}

/// The declarations of the constraints from `k` on give them by the names of
/// the table.
pub proof fn lemma_decl_negative_rules_from(
    v: GeneratorView,
    rules: Seq<(u32, Seq<char>)>,
    k: int,
)
    requires
        0 <= k <= rules.len(),
    ensures
        v.decl_negative_rules_from(rules, k) matches Ok((after, decls)) ==> {
            &&& adds_rows(after, v)
            &&& after.marks(rules.skip(k), decls)
        },
    decreases rules.len() - k,
{
    lemma_extends_refl(v);
    if k < rules.len() {
        lemma_named(v, rules[k].0, "neg_"@);
        if let Ok((v1, name)) = v.named(rules[k].0, "neg_"@) {
            lemma_decl_negative_rules_from(v1, rules, k + 1);
            if let Ok((after, rest)) = v1.decl_negative_rules_from(rules, k + 1) {
                lemma_adds_rows_trans(v, v1, after);
                let decls = seq![(name, rules[k].1)] + rest;
                let part = rules.skip(k);
                assert forall|i: int| 0 <= i < part.len() implies after.names(
                    part[i].0,
                    (#[trigger] decls[i]).0,
                ) && decls[i].1 == part[i].1 by {
                    if i == 0 {
                        lemma_names_stay(after, v1, rules[k].0, name);
                    } else {
                        assert(rules.skip(k + 1)[i - 1] == part[i]);
                        assert(decls[i] == rest[i - 1]);
                    }
                }
            }
        }
    } else {
        assert(rules.skip(k).len() == 0);
    }
}

/// In the declarations of the constraints every marker stands under the name
/// of its row, and the table stays in order.
pub proof fn lemma_decl_negative_rules_marks(v: GeneratorView)
    ensures
        v.decl_negative_rules() matches Ok((after, decls)) ==> adds_rows(after, v)
            && after.marks(v.negative_rules, decls),
{
    lemma_decl_negative_rules_from(v, v.negative_rules, 0);
    assert(v.negative_rules.skip(0) =~= v.negative_rules);
}

/// Rows are added one after another.
proof fn lemma_adds_rows_trans(a: GeneratorView, b: GeneratorView, c: GeneratorView)
    requires
        adds_rows(b, a),
        adds_rows(c, b),
    ensures
        adds_rows(c, a),
{
    lemma_holds_rows_trans(a.syms, b.syms, c.syms);
}

/// Symbols that are named stand in the table under their names.
pub proof fn lemma_named_all(v: GeneratorView, syms: Seq<u32>)
    ensures
        v.named_all(syms) matches Ok((after, names)) ==> {
            &&& adds_rows(after, v)
            &&& names.len() == syms.len()
            &&& forall|j: int| 0 <= j < syms.len() ==> after.names(syms[j], #[trigger] names[j])
        },
    decreases syms.len(),
{
    lemma_extends_refl(v);
    if syms.len() > 0 {
        lemma_named(v, syms.first(), "g_"@);
        if let Ok((v1, name)) = v.named(syms.first(), "g_"@) {
            lemma_named_all(v1, syms.drop_first());
            if let Ok((after, rest)) = v1.named_all(syms.drop_first()) {
                lemma_adds_rows_trans(v, v1, after);
                let names = seq![name] + rest;
                assert forall|j: int| 0 <= j < syms.len() implies after.names(
                    syms[j],
                    #[trigger] names[j],
                ) by {
                    if j == 0 {
                        lemma_names_stay(after, v1, syms[0], name);
                    } else {
                        assert(syms.drop_first()[j - 1] == syms[j]);
                        assert(names[j] == rest[j - 1]);
                    }
                }
            }
        }
    }
}

/// The declarations of the productions from `k` on render them by the names
/// of the table.
pub proof fn lemma_decl_rules_from(v: GeneratorView, rules: Seq<(u32, Seq<u32>)>, k: int)
    requires
        0 <= k <= rules.len(),
    ensures
        v.decl_rules_from(rules, k) matches Ok((after, decls)) ==> {
            &&& adds_rows(after, v)
            &&& after.renders(rules.skip(k), decls)
        },
    decreases rules.len() - k,
{
    lemma_extends_refl(v);
    if k < rules.len() {
        let lhs = rules[k].0;
        let rhs = rules[k].1;
        lemma_named(v, lhs, "g_"@);
        if let Ok((v1, name)) = v.named(lhs, "g_"@) {
            lemma_named_all(v1, rhs);
            if let Ok((v2, names)) = v1.named_all(rhs) {
                lemma_adds_rows_trans(v, v1, v2);
                lemma_decl_rules_from(v2, rules, k + 1);
                if let Ok((after, rest)) = v2.decl_rules_from(rules, k + 1) {
                    lemma_adds_rows_trans(v, v2, after);
                    let decls = seq![(name, names)] + rest;
                    let part = rules.skip(k);
                    assert forall|i: int| 0 <= i < part.len() implies {
                        &&& after.names(part[i].0, (#[trigger] decls[i]).0)
                        &&& decls[i].1.len() == part[i].1.len()
                        &&& forall|j: int|
                            0 <= j < part[i].1.len() ==> after.names(
                                part[i].1[j],
                                #[trigger] decls[i].1[j],
                            )
                    } by {
                        if i == 0 {
                            lemma_names_stay(v2, v1, lhs, name);
                            lemma_names_stay(after, v2, lhs, name);
                            assert forall|j: int| 0 <= j < rhs.len() implies after.names(
                                rhs[j],
                                #[trigger] names[j],
                            ) by {
                                lemma_names_stay(after, v2, rhs[j], names[j]);
                            }
                        } else {
                            assert(rules.skip(k + 1)[i - 1] == part[i]);
                            assert(decls[i] == rest[i - 1]);
                        }
                    }
                }
            }
        }
    } else {
        assert(rules.skip(k).len() == 0);
    }
}

/// In the declarations of a grammar every symbol stands under the name of
/// its row, so under one name wherever it occurs, and the table stays in
/// order, so that different symbols stand under different names.
pub proof fn lemma_decl_rules_renders(v: GeneratorView)
    ensures
        v.decl_rules() matches Ok((after, decls)) ==> adds_rows(after, v) && after.renders(
            v.rules,
            decls,
        ),
{
    lemma_decl_rules_from(v, v.rules, 0);
    assert(v.rules.skip(0) =~= v.rules);
}

} // verus!

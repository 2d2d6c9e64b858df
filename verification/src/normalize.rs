//! The grammar normalizer: productions are brought into the shape that the
//! engine expands, with at most two symbols on each right-hand side.

use crate::error::{CompileError, CompileFault};
use crate::grammar::{
    binarize, binarized, cfg_num_syms, cfg_rules, cfg_sequences, fresh_symbol, new_grammar,
    no_duplicate_nulling, productions_view, push_rule, rule_below, symbols_below, Production,
};
use crate::language::{
    chain_symbols, lemma_same_language_trans, lemma_same_productions_same_language,
    same_language,
};
use crate::normalize_laws::lemma_deduped_same_productions;
use crate::rules::{key_span, lemma_max_key_bounds, span_of};

use vstd::prelude::*;

verus! {

/// Whether `s` owns an empty production among the first `k` rules.
pub open spec fn owns_empty(rules: Seq<(u32, Seq<u32>)>, s: int, k: int) -> bool
    decreases k,
{
    k > 0 && (owns_empty(rules, s, k - 1) || (rules[k - 1].0 == s && rules[k - 1].1.len() == 0))
}

/// The first `k` rules without the empty productions that repeat an earlier
/// empty production of the same symbol.
pub open spec fn deduped(rules: Seq<(u32, Seq<u32>)>, k: int) -> Seq<(u32, Seq<u32>)>
    decreases k,
{
    if k <= 0 {
        Seq::empty()
    } else {
        let d = deduped(rules, k - 1);
        if rules[k - 1].1.len() == 0 && owns_empty(d, rules[k - 1].0 as int, d.len() as int) {
            d
        } else {
            d.push(rules[k - 1])
        }
    }
}

/// How many numbers the symbols of the first `k` rules span: one more than
/// the largest symbol on either side of a rule.
pub open spec fn rule_span(rules: Seq<(u32, Seq<u32>)>, k: int) -> int
    decreases k,
{
    if k <= 0 {
        0
    } else {
        let before = rule_span(rules, k - 1);
        let lhs = rules[k - 1].0 + 1;
        let rhs = key_span(rules[k - 1].1);
        if before >= lhs && before >= rhs {
            before
        } else if lhs >= rhs {
            lhs
        } else {
            rhs
        }
    }
}

/// The normalized form of a list of rules: what binarization makes of the
/// rules without repeated empty productions, in a grammar with as many
/// symbols as the rules span. There is none where a symbol is `u32::MAX`.
pub open spec fn normalized(rules: Seq<(u32, Seq<u32>)>) -> Result<
    Seq<(u32, Seq<u32>)>,
    CompileFault,
> {
    let count = rule_span(rules, rules.len() as int);
    if count > u32::MAX {
        Err(CompileFault::TooManySymbols)
    } else {
        Ok(binarized(deduped(rules, rules.len() as int), count as u32))
    }
}

/// The span does not shrink when more rules are looked at, and every symbol
/// of a rule is below the span.
pub proof fn lemma_rule_span(rules: Seq<(u32, Seq<u32>)>, k: int, m: int)
    requires
        0 <= k <= m <= rules.len(),
    ensures
        0 <= rule_span(rules, k) <= rule_span(rules, m),
        forall|i: int| 0 <= i < m ==> rule_below(#[trigger] rules[i], rule_span(rules, m)),
    decreases m,
{
    if m > 0 {
        if k < m {
            lemma_rule_span(rules, k, m - 1);
        } else {
            lemma_rule_span(rules, m - 1, m - 1);
        }
        let last = rules[m - 1];
        lemma_max_key_bounds(last.1, last.1.len() as int);
        assert forall|i: int| 0 <= i < m implies rule_below(
            #[trigger] rules[i],
            rule_span(rules, m),
        ) by {
            if i < m - 1 {
                assert(rule_below(rules[i], rule_span(rules, m - 1)));
            }
        }
    }
}

/// Owning an empty production among the first `k` rules is a matter of those
/// rules only.
pub proof fn lemma_owns_empty_prefix(
    a: Seq<(u32, Seq<u32>)>,
    b: Seq<(u32, Seq<u32>)>,
    s: int,
    k: int,
)
    requires
        k <= a.len(),
        k <= b.len(),
        forall|i: int| 0 <= i < k ==> a[i] == b[i],
    ensures
        owns_empty(a, s, k) == owns_empty(b, s, k),
    decreases k,
{
    if k > 0 {
        lemma_owns_empty_prefix(a, b, s, k - 1);
    }
}

/// A symbol that owns no empty production among the first `k` rules owns none
/// of them that is empty.
pub proof fn lemma_owns_empty_none(rules: Seq<(u32, Seq<u32>)>, s: int, k: int)
    requires
        k <= rules.len(),
        !owns_empty(rules, s, k),
    ensures
        forall|i: int| 0 <= i < k ==> !((#[trigger] rules[i]).0 == s && rules[i].1.len() == 0),
    decreases k,
{
    if k > 0 {
        lemma_owns_empty_none(rules, s, k - 1);
    }
}

/// Among the rules without repeats no symbol owns two empty productions, and
/// every rule among them is one of the rules.
pub proof fn lemma_deduped(rules: Seq<(u32, Seq<u32>)>, k: int, n: int)
    requires
        0 <= k <= rules.len(),
        forall|i: int| 0 <= i < k ==> rule_below(#[trigger] rules[i], n),
    ensures
        no_duplicate_nulling(deduped(rules, k)),
        symbols_below(deduped(rules, k), n),
    decreases k,
{
    if k > 0 {
        lemma_deduped(rules, k - 1, n);
        let d = deduped(rules, k - 1);
        let r = rules[k - 1];
        if !(r.1.len() == 0 && owns_empty(d, r.0 as int, d.len() as int)) {
            let e = d.push(r);
            if r.1.len() == 0 {
                lemma_owns_empty_none(d, r.0 as int, d.len() as int);
            }
            assert forall|i: int, j: int|
                0 <= i < j < e.len() && e[i].1.len() == 0 && e[j].1.len() == 0 implies e[i].0
                != e[j].0 by {
                if j < d.len() {
                    assert(e[i] == d[i] && e[j] == d[j]);
                } else {
                    assert(e[i] == d[i]);
                }
            }
            assert forall|i: int| 0 <= i < e.len() implies rule_below(#[trigger] e[i], n) by {
                if i < d.len() {
                    assert(e[i] == d[i]);
                }
            }
        }
    }
}

/// The chains of a list of rules are those of its first rules plus more.
pub proof fn lemma_chain_prefix(a: Seq<(u32, Seq<u32>)>, b: Seq<(u32, Seq<u32>)>, k: int)
    requires
        k <= a.len(),
        k <= b.len(),
        forall|i: int| 0 <= i < k ==> a[i] == b[i],
    ensures
        chain_symbols(a, k) == chain_symbols(b, k),
        0 <= chain_symbols(a, k),
    decreases k,
{
    if k > 0 {
        lemma_chain_prefix(a, b, k - 1);
    }
}

/// Leaving out empty productions takes no chain away and adds none.
pub proof fn lemma_chain_deduped(rules: Seq<(u32, Seq<u32>)>, k: int)
    requires
        0 <= k <= rules.len(),
    ensures
        chain_symbols(deduped(rules, k), deduped(rules, k).len() as int) == chain_symbols(
            rules,
            k,
        ),
    decreases k,
{
    if k > 0 {
        lemma_chain_deduped(rules, k - 1);
        let d = deduped(rules, k - 1);
        let e = deduped(rules, k);
        if e.len() > d.len() {
            lemma_chain_prefix(e, d, d.len() as int);
        }
    }
}

/// How many numbers the symbols of `rules` span, unless a symbol is
/// `u32::MAX`.
pub fn symbol_span(rules: &Vec<Production>) -> (n: Option<u32>)
    ensures
        match n {
            Some(n) => n == rule_span(productions_view(rules@), rules@.len() as int),
            None => rule_span(productions_view(rules@), rules@.len() as int) > u32::MAX,
        },
{
    let ghost view = productions_view(rules@);
    let mut n: u32 = 0;
    let mut k: usize = 0;
    while k < rules.len()
        invariant
            k <= rules.len(),
            view == productions_view(rules@),
            n == rule_span(view, k as int),
        decreases rules.len() - k,
    {
        let rule = &rules[k];
        assert(view[k as int] == rule@);
        proof {
            lemma_rule_span(view, k + 1, view.len() as int);
            lemma_max_key_bounds(rule.rhs@, rule.rhs@.len() as int);
        }
        if rule.lhs == u32::MAX {
            return None;
        }
        if rule.lhs >= n {
            n = rule.lhs + 1;
        }
        match span_of(&rule.rhs) {
            None => {
                return None;
            },
            Some(span) => {
                if span > n as usize {
                    n = span as u32;
                }
            },
        }
        k += 1;
    }
    Some(n)
}

/// Whether the symbols for the chains of `rules` are there to take.
pub open spec fn chains_fit(rules: Seq<(u32, Seq<u32>)>) -> bool {
    rule_span(rules, rules.len() as int) + chain_symbols(rules, rules.len() as int) <= u32::MAX
}

/// Binarizes `rules`: every production of the result has at most two symbols
/// on its right-hand side. A symbol's second and later empty productions are
/// left out beforehand. Normalization is transparent: as long as the symbols
/// for the chains are there to take, every symbol of `rules` derives from the
/// result the words of terminals that it derives from `rules`, and no other.
pub fn normalize(rules: &Vec<Production>) -> (r: Result<Vec<Production>, CompileError>)
    ensures
        match normalized(productions_view(rules@)) {
            Ok(out) => r is Ok && productions_view(r->Ok_0@) == out && forall|i: int|
                0 <= i < r->Ok_0@.len() ==> (#[trigger] r->Ok_0@[i]).rhs@.len() <= 2,
            Err(e) => r is Err && r->Err_0@ == e,
        },
        r is Ok && chains_fit(productions_view(rules@)) ==> same_language(
            productions_view(rules@),
            productions_view(r->Ok_0@),
            rule_span(productions_view(rules@), rules@.len() as int),
        ),
{
    let ghost view = productions_view(rules@);
    let count = match symbol_span(rules) {
        Some(count) => count,
        None => {
            return Err(CompileError::TooManySymbols);
        },
    };
    let mut grammar = new_grammar();
    let mut nulled: Vec<bool> = Vec::new();
    let mut i: u32 = 0;
    while i < count
        invariant
            i <= count,
            cfg_num_syms(grammar) == i,
            cfg_rules(grammar) == Seq::<(u32, Seq<u32>)>::empty(),
            cfg_sequences(grammar) == Seq::<(u32, u32, u32, Option<u32>)>::empty(),
            nulled@.len() == i,
            forall|s: int| 0 <= s < i ==> !(#[trigger] nulled@[s]),
        decreases count - i,
    {
        let _ = fresh_symbol(&mut grammar);
        nulled.push(false);
        i += 1;
    }
    proof {
        lemma_rule_span(view, 0, view.len() as int);
    }
    let mut k: usize = 0;
    while k < rules.len()
        invariant
            k <= rules.len(),
            view == productions_view(rules@),
            count == rule_span(view, view.len() as int),
            forall|j: int| 0 <= j < view.len() ==> rule_below(#[trigger] view[j], count as int),
            cfg_num_syms(grammar) == count,
            cfg_rules(grammar) == deduped(view, k as int),
            cfg_sequences(grammar) == Seq::<(u32, u32, u32, Option<u32>)>::empty(),
            nulled@.len() == count,
            forall|s: int|
                0 <= s < count ==> (#[trigger] nulled@[s]) == owns_empty(
                    deduped(view, k as int),
                    s,
                    deduped(view, k as int).len() as int,
                ),
        decreases rules.len() - k,
    {
        let rule = &rules[k];
        let ghost d = deduped(view, k as int);
        assert(view[k as int] == rule@);
        assert(rule_below(view[k as int], count as int));
        let lhs = rule.lhs as usize;
        if rule.rhs.len() == 0 && nulled[lhs] {
        } else {
            push_rule(&mut grammar, rule.lhs, &rule.rhs);
            let ghost e = d.push(rule@);
            assert forall|s: int| 0 <= s < count implies owns_empty(e, s, d.len() as int)
                == owns_empty(d, s, d.len() as int) by {
                lemma_owns_empty_prefix(e, d, s, d.len() as int);
            }
            if rule.rhs.len() == 0 {
                nulled.set(lhs, true);
            }
        }
        k += 1;
    }
    proof {
        lemma_deduped(view, view.len() as int, count as int);
        lemma_chain_deduped(view, view.len() as int);
    }
    let out = binarize(&grammar);
    proof {
        if chains_fit(view) {
            let d = deduped(view, view.len() as int);
            lemma_deduped_same_productions(view);
            lemma_same_productions_same_language(view, d, count as int);
            lemma_same_language_trans(view, d, productions_view(out@), count as int);
        }
    }
    Ok(out)
}

} // verus!

//! What holds of normalization whatever the productions.

use crate::derivable::{derives, replay, Move};
use crate::language::{expands, produces, same_productions};
use crate::derivation::Tables;
use crate::normalize::{deduped, owns_empty};
use vstd::prelude::*;

verus! {

/// A symbol that owns an empty production among the first `k` rules has the
/// empty production.
proof fn lemma_owns_empty_produces(rules: Seq<(u32, Seq<u32>)>, s: u32, k: int)
    requires
        k <= rules.len(),
        owns_empty(rules, s as int, k),
    ensures
        produces(rules, s, Seq::empty()),
    decreases k,
{
    if rules[k - 1].0 == s && rules[k - 1].1.len() == 0 {
        assert(rules[k - 1].1 =~= Seq::<u32>::empty());
        assert(rules[k - 1] == (s, Seq::<u32>::empty()));
    } else {
        lemma_owns_empty_produces(rules, s, k - 1);
    }
}

/// The rules without repeated empty productions hold the productions of the
/// rules they were made from, and no other.
proof fn lemma_deduped_produces(rules: Seq<(u32, Seq<u32>)>, k: int, lhs: u32, rhs: Seq<u32>)
    requires
        0 <= k <= rules.len(),
    ensures
        produces(deduped(rules, k), lhs, rhs) == produces(rules.take(k), lhs, rhs),
    decreases k,
{
    let d = deduped(rules, k);
    let part = rules.take(k);
    if k > 0 {
        let before = deduped(rules, k - 1);
        let shorter = rules.take(k - 1);
        let last = rules[k - 1];
        lemma_deduped_produces(rules, k - 1, lhs, rhs);
        if produces(d, lhs, rhs) {
            let i = choose|i: int| 0 <= i < d.len() && #[trigger] d[i] == (lhs, rhs);
            if i < before.len() {
                assert(before[i] == (lhs, rhs));
                let j = choose|j: int| 0 <= j < shorter.len() && #[trigger] shorter[j] == (lhs, rhs);
                assert(part[j] == (lhs, rhs));
            } else {
                assert(part[k - 1] == (lhs, rhs));
            }
        }
        if produces(part, lhs, rhs) {
            let j = choose|j: int| 0 <= j < part.len() && #[trigger] part[j] == (lhs, rhs);
            if j < k - 1 {
                assert(shorter[j] == (lhs, rhs));
                let i = choose|i: int| 0 <= i < before.len() && #[trigger] before[i] == (lhs, rhs);
                assert(d[i] == (lhs, rhs));
            } else if last.1.len() == 0 && owns_empty(
                before,
                last.0 as int,
                before.len() as int,
            ) {
                lemma_owns_empty_produces(before, last.0, before.len() as int);
                assert(rhs =~= Seq::<u32>::empty());
                let i = choose|i: int|
                    0 <= i < before.len() && #[trigger] before[i] == (lhs, Seq::<u32>::empty());
                assert(d[i] == (lhs, rhs));
            } else {
                assert(d[before.len() as int] == (lhs, rhs));
            }
        }
    } else {
        assert(d.len() == 0 && part.len() == 0);
    }
}

/// A symbol owns a production exactly if one of its productions is in the
/// grammar.
proof fn lemma_expands_produces(a: Seq<(u32, Seq<u32>)>, b: Seq<(u32, Seq<u32>)>, sym: u32)
    requires
        forall|lhs: u32, rhs: Seq<u32>| #[trigger] produces(a, lhs, rhs) == produces(b, lhs, rhs),
        expands(a, sym),
    ensures
        expands(b, sym),
{
    let i = choose|i: int| 0 <= i < a.len() && (#[trigger] a[i]).0 == sym;
    assert(a[i] == (sym, a[i].1));
    assert(produces(a, sym, a[i].1));
    assert(produces(b, sym, a[i].1));
    let j = choose|j: int| 0 <= j < b.len() && #[trigger] b[j] == (sym, a[i].1);
    assert(b[j].0 == sym);
}

/// Leaving out repeated empty productions changes no production.
pub proof fn lemma_deduped_same_productions(rules: Seq<(u32, Seq<u32>)>)
    ensures
        same_productions(rules, deduped(rules, rules.len() as int)),
{
    let d = deduped(rules, rules.len() as int);
    assert(rules.take(rules.len() as int) =~= rules);
    assert forall|lhs: u32, rhs: Seq<u32>| #[trigger]
        produces(rules, lhs, rhs) == produces(d, lhs, rhs) by {
        lemma_deduped_produces(rules, rules.len() as int, lhs, rhs);
    }
    assert forall|sym: u32| #[trigger] expands(rules, sym) == expands(d, sym) by {
        if expands(rules, sym) {
            lemma_expands_produces(rules, d, sym);
        }
        if expands(d, sym) {
            lemma_expands_produces(d, rules, sym);
        }
    }
}

/// Grammars with the same productions, terminals and markers replay every
/// script alike.
pub proof fn lemma_replay_alike(a: Tables, b: Tables, work: Seq<u32>, script: Seq<Move>)
    requires
        same_productions(a.rules, b.rules),
        a.syms == b.syms,
        a.negative_rules == b.negative_rules,
    ensures
        replay(a, work, script) == replay(b, work, script),
    decreases script.len(),
{
    if work.len() > 0 && script.len() > 0 {
        let sym = work.last();
        let rest = work.drop_last();
        let tail = script.drop_first();
        lemma_replay_alike(a, b, rest, tail);
        match script.first() {
            Move::Pass => {},
            Move::Emit(text) => {
                assert(expands(a.rules, sym) == expands(b.rules, sym));
            },
            Move::Expand(rhs) => {
                assert(produces(a.rules, sym, rhs) == produces(b.rules, sym, rhs));
                lemma_replay_alike(
                    a,
                    b,
                    crate::language::unwind(rest, rhs, rhs.len() as int),
                    tail,
                );
            },
        }
    }
}

/// Leaving out repeated empty productions is transparent: the grammar
/// derives the same texts from the same symbols with them and without.
pub proof fn lemma_dedupe_is_transparent(t: Tables, work: Seq<u32>, text: Seq<char>)
    ensures
        derives(t, work, text) == derives(
            Tables { rules: deduped(t.rules, t.rules.len() as int), ..t },
            work,
            text,
        ),
{
    let u = Tables { rules: deduped(t.rules, t.rules.len() as int), ..t };
    lemma_deduped_same_productions(t.rules);
    if derives(t, work, text) {
        let script = choose|script: Seq<Move>| #[trigger] replay(t, work, script) == Some(text);
        lemma_replay_alike(t, u, work, script);
    }
    if derives(u, work, text) {
        let script = choose|script: Seq<Move>| #[trigger] replay(u, work, script) == Some(text);
        lemma_replay_alike(t, u, work, script);
    }
}

} // verus!

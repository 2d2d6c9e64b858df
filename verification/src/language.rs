//! The language of a list of productions: which strings of terminals a
//! symbol derives.

use vstd::prelude::*;

verus! {

/// Whether `lhs ::= rhs` is a production of the grammar.
pub open spec fn produces(rules: Seq<(u32, Seq<u32>)>, lhs: u32, rhs: Seq<u32>) -> bool {
    exists|i: int| 0 <= i < rules.len() && #[trigger] rules[i] == (lhs, rhs)
}

/// Whether `sym` owns a production of the grammar.
pub open spec fn expands(rules: Seq<(u32, Seq<u32>)>, sym: u32) -> bool {
    exists|i: int| 0 <= i < rules.len() && (#[trigger] rules[i]).0 == sym
}

/// `work` with the symbols of `rhs` put on it, the last symbol first, so that
/// the first symbol of `rhs` is expanded next.
pub open spec fn unwind(work: Seq<u32>, rhs: Seq<u32>, k: int) -> Seq<u32>
    decreases k,
{
    if k <= 0 {
        work
    } else {
        unwind(work.push(rhs[k - 1]), rhs, k - 1)
    }
}

/// `head` in front of a word, if there is a word.
pub open spec fn behind(head: u32, tail: Option<Seq<u32>>) -> Option<Seq<u32>> {
    match tail {
        Some(word) => Some(seq![head] + word),
        None => None,
    }
}

/// The word of terminals that the moves of `script` derive from the symbols
/// of `work`, the next symbol last. A move is the right-hand side of a
/// production of the symbol it is made on, or nothing for a terminal, which
/// is a symbol that owns no production and stands in the word as it is.
pub open spec fn word_of(
    rules: Seq<(u32, Seq<u32>)>,
    work: Seq<u32>,
    script: Seq<Option<Seq<u32>>>,
) -> Option<Seq<u32>>
    decreases script.len(),
{
    if work.len() == 0 {
        if script.len() == 0 {
            Some(Seq::empty())
        } else {
            None
        }
    } else if script.len() == 0 {
        None
    } else {
        let sym = work.last();
        let rest = work.drop_last();
        match script.first() {
            None => if !expands(rules, sym) {
                behind(sym, word_of(rules, rest, script.drop_first()))
            } else {
                None
            },
            Some(rhs) => if produces(rules, sym, rhs) {
                word_of(rules, unwind(rest, rhs, rhs.len() as int), script.drop_first())
            } else {
                None
            },
        }
    }
}

/// Whether the productions derive the word of terminals `word` from `sym`.
pub open spec fn yields(rules: Seq<(u32, Seq<u32>)>, sym: u32, word: Seq<u32>) -> bool {
    exists|script: Seq<Option<Seq<u32>>>| #[trigger]
        word_of(rules, seq![sym], script) == Some(word)
}

/// Whether the two lists of productions derive the same words from every
/// symbol below `n`.
pub open spec fn same_language(
    a: Seq<(u32, Seq<u32>)>,
    b: Seq<(u32, Seq<u32>)>,
    n: int,
) -> bool {
    forall|sym: u32, word: Seq<u32>| sym < n ==> #[trigger] yields(a, sym, word) == yields(
        b,
        sym,
        word,
    )
}

/// How many symbols the chains for the first `k` productions take: for each
/// production the number of its right-hand symbols beyond two.
pub open spec fn chain_symbols(rules: Seq<(u32, Seq<u32>)>, k: int) -> int
    decreases k,
{
    if k <= 0 {
        0
    } else if rules[k - 1].1.len() > 2 {
        chain_symbols(rules, k - 1) + rules[k - 1].1.len() - 2
    } else {
        chain_symbols(rules, k - 1)
    }
}

/// Whether two lists of rules hold the same productions, in whatever order
/// and however often.
pub open spec fn same_productions(a: Seq<(u32, Seq<u32>)>, b: Seq<(u32, Seq<u32>)>) -> bool {
    &&& forall|lhs: u32, rhs: Seq<u32>| #[trigger] produces(a, lhs, rhs) == produces(b, lhs, rhs)
    &&& forall|sym: u32| #[trigger] expands(a, sym) == expands(b, sym)
}

/// Lists that hold the same productions derive every script alike.
pub proof fn lemma_word_alike(
    a: Seq<(u32, Seq<u32>)>,
    b: Seq<(u32, Seq<u32>)>,
    work: Seq<u32>,
    script: Seq<Option<Seq<u32>>>,
)
    requires
        same_productions(a, b),
    ensures
        word_of(a, work, script) == word_of(b, work, script),
    decreases script.len(),
{
    if work.len() > 0 && script.len() > 0 {
        let sym = work.last();
        let rest = work.drop_last();
        let tail = script.drop_first();
        lemma_word_alike(a, b, rest, tail);
        match script.first() {
            None => {
                assert(expands(a, sym) == expands(b, sym));
            },
            Some(rhs) => {
                assert(produces(a, sym, rhs) == produces(b, sym, rhs));
                lemma_word_alike(a, b, unwind(rest, rhs, rhs.len() as int), tail);
            },
        }
    }
}

/// Lists that hold the same productions have the same language.
pub proof fn lemma_same_productions_same_language(
    a: Seq<(u32, Seq<u32>)>,
    b: Seq<(u32, Seq<u32>)>,
    n: int,
)
    requires
        same_productions(a, b),
    ensures
        same_language(a, b, n),
{
    assert forall|sym: u32, word: Seq<u32>| sym < n implies #[trigger] yields(a, sym, word)
        == yields(b, sym, word) by {
        if yields(a, sym, word) {
            let script = choose|script: Seq<Option<Seq<u32>>>| #[trigger]
                word_of(a, seq![sym], script) == Some(word);
            lemma_word_alike(a, b, seq![sym], script);
        }
        if yields(b, sym, word) {
            let script = choose|script: Seq<Option<Seq<u32>>>| #[trigger]
                word_of(b, seq![sym], script) == Some(word);
            lemma_word_alike(a, b, seq![sym], script);
        }
    }
}

/// Having the same language is transitive.
pub proof fn lemma_same_language_trans(
    a: Seq<(u32, Seq<u32>)>,
    b: Seq<(u32, Seq<u32>)>,
    c: Seq<(u32, Seq<u32>)>,
    n: int,
)
    requires
        same_language(a, b, n),
        same_language(b, c, n),
    ensures
        same_language(a, c, n),
{
    assert forall|sym: u32, word: Seq<u32>| sym < n implies #[trigger] yields(a, sym, word)
        == yields(c, sym, word) by {
        assert(yields(a, sym, word) == yields(b, sym, word));
        assert(yields(b, sym, word) == yields(c, sym, word));
    }
}

} // verus!

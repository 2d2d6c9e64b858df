use grammar_gen::error::CompileError;
use grammar_gen::expr::{Expr, Rule, RuleType};
use grammar_gen::generator::Generator;
use grammar_gen::grammar::Production;
use grammar_gen::normalize::{normalize, symbol_span};
use std::collections::{BTreeMap, BTreeSet};

fn lit(text: &str) -> Expr {
    Expr::Str(text.to_string())
}

fn ident(name: &str) -> Expr {
    Expr::Ident(name.to_string())
}

fn seq(left: Expr, right: Expr) -> Expr {
    Expr::Sequence(Box::new(left), Box::new(right))
}

fn choice(left: Expr, right: Expr) -> Expr {
    Expr::Choice(Box::new(left), Box::new(right), None)
}

fn rep(inner: Expr, min: u32, max: Option<u32>) -> Expr {
    Expr::Rep(Box::new(inner), min, max)
}

fn rule(name: &str, expr: Expr) -> Rule {
    Rule { name: name.to_string(), ty: RuleType::Atomic, expr }
}

fn production(lhs: u32, rhs: &[u32]) -> Production {
    Production { lhs, rhs: rhs.to_vec() }
}

fn pairs(rules: &[Production]) -> Vec<(u32, Vec<u32>)> {
    rules.iter().map(|p| (p.lhs, p.rhs.clone())).collect()
}

/// The strings of at most `n` terminals that each symbol derives.
fn language(rules: &[Production], n: usize) -> BTreeMap<u32, BTreeSet<Vec<u32>>> {
    let mut symbols: BTreeSet<u32> = BTreeSet::new();
    let mut owners: BTreeSet<u32> = BTreeSet::new();
    for p in rules {
        symbols.insert(p.lhs);
        owners.insert(p.lhs);
        symbols.extend(p.rhs.iter().copied());
    }
    let mut lang: BTreeMap<u32, BTreeSet<Vec<u32>>> = BTreeMap::new();
    for &s in &symbols {
        let mut set = BTreeSet::new();
        if !owners.contains(&s) {
            set.insert(vec![s]);
        }
        lang.insert(s, set);
    }
    loop {
        let mut changed = false;
        for p in rules {
            let mut partial: BTreeSet<Vec<u32>> = BTreeSet::new();
            partial.insert(Vec::new());
            for s in &p.rhs {
                let mut next = BTreeSet::new();
                for head in &partial {
                    for tail in &lang[s] {
                        if head.len() + tail.len() <= n {
                            let mut joined = head.clone();
                            joined.extend(tail.iter().copied());
                            next.insert(joined);
                        }
                    }
                }
                partial = next;
            }
            let own = lang.get_mut(&p.lhs).unwrap();
            for text in partial {
                changed |= own.insert(text);
            }
        }
        if !changed {
            return lang;
        }
    }
}

fn assert_transparent(rules: Vec<Rule>, starts: &[&str]) {
    let mut generator = Generator::new();
    for r in &rules {
        generator.process_rule(r).unwrap();
    }
    generator.rewrite_sequences();
    let before = generator.rules();
    let after = normalize(&before).unwrap();
    assert!(after.iter().all(|p| p.rhs.len() <= 2));
    let lang_before = language(&before, 5);
    let lang_after = language(&after, 5);
    for start in starts {
        let s = generator.match_start(start).unwrap();
        assert!(!lang_before[&s].is_empty());
        assert_eq!(lang_before[&s], lang_after[&s], "rule {}", start);
    }
}

#[test]
fn binarization_keeps_the_language_of_literals() {
    assert_transparent(vec![rule("a", lit("abcde")), rule("b", lit("")), rule("c", lit("x"))], &["a", "b", "c"]);
}

#[test]
fn binarization_keeps_the_language_of_choices() {
    assert_transparent(
        vec![rule("a", choice(lit("abc"), choice(lit("de"), lit(""))))],
        &["a"],
    );
}

#[test]
fn binarization_keeps_the_language_of_options() {
    assert_transparent(
        vec![rule("a", seq(lit("ab"), seq(Expr::Opt(Box::new(lit("cd"))), lit("e"))))],
        &["a"],
    );
}

#[test]
fn binarization_keeps_the_language_of_repetitions() {
    assert_transparent(
        vec![
            rule("star", rep(lit("a"), 0, None)),
            rule("plus", rep(lit("ab"), 1, None)),
            rule("few", rep(lit("a"), 2, Some(4))),
            rule("exact", rep(lit("a"), 3, Some(3))),
            rule("none", rep(lit("a"), 0, Some(0))),
            rule("from2", rep(choice(lit("a"), lit("b")), 2, None)),
            rule("upto5", rep(lit("a"), 0, Some(5))),
        ],
        &["star", "plus", "few", "exact", "none", "from2", "upto5"],
    );
}

#[test]
fn binarization_keeps_the_language_of_nested_references() {
    assert_transparent(
        vec![
            rule("expr", seq(ident("term"), rep(seq(lit("+"), ident("term")), 0, None))),
            rule("term", choice(lit("n"), seq(lit("("), seq(ident("expr"), lit(")"))))),
            rule("list", seq(lit("["), seq(Expr::Opt(Box::new(ident("expr"))), lit("]")))),
        ],
        &["expr", "term", "list"],
    );
}

#[test]
fn long_productions_are_chained() {
    let rules = vec![production(0, &[1, 2, 3, 4]), production(0, &[]), production(0, &[1])];
    let out = normalize(&rules).unwrap();
    assert_eq!(
        pairs(&out),
        vec![(0, vec![]), (0, vec![5, 4]), (5, vec![6, 3]), (6, vec![1, 2]), (0, vec![1])]
    );
}

#[test]
fn repeated_empty_productions_are_left_out() {
    let rules = vec![
        production(0, &[]),
        production(1, &[]),
        production(0, &[]),
        production(0, &[1]),
        production(1, &[]),
    ];
    let out = normalize(&rules).unwrap();
    assert_eq!(pairs(&out), vec![(0, vec![]), (1, vec![]), (0, vec![1])]);
}

#[test]
fn symbols_span() {
    assert_eq!(symbol_span(&Vec::new()), Some(0));
    assert_eq!(symbol_span(&vec![production(3, &[])]), Some(4));
    assert_eq!(symbol_span(&vec![production(3, &[9, 2]), production(1, &[4])]), Some(10));
    assert_eq!(symbol_span(&vec![production(u32::MAX - 1, &[])]), Some(u32::MAX));
    assert_eq!(symbol_span(&vec![production(u32::MAX, &[])]), None);
    assert_eq!(symbol_span(&vec![production(0, &[1, u32::MAX])]), None);
}

#[test]
fn a_symbol_numbered_u32_max_is_refused() {
    let rules = vec![production(0, &[u32::MAX])];
    assert!(matches!(normalize(&rules), Err(CompileError::TooManySymbols)));
}

#[test]
fn every_symbol_keeps_its_language() {
    let rules = vec![
        production(0, &[1, 2, 3, 4, 5]),
        production(0, &[]),
        production(1, &[6]),
        production(1, &[1, 1, 7]),
        production(2, &[]),
        production(2, &[]),
        production(3, &[8, 0, 9, 2]),
        production(3, &[7]),
        production(4, &[]),
        production(5, &[6, 7]),
        production(5, &[5, 5, 5, 5]),
    ];
    let out = normalize(&rules).unwrap();
    assert!(out.iter().all(|p| p.rhs.len() <= 2));
    let before = language(&rules, 4);
    let after = language(&out, 4);
    for sym in 0..10u32 {
        assert_eq!(before[&sym], after[&sym], "symbol {}", sym);
    }
    assert!(before[&0].contains(&vec![]));
    assert!(before[&5].contains(&vec![6, 7]));
}

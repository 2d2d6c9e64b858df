use grammar_gen::error::CompileError;
use grammar_gen::expr::{Expr, Rule, RuleType};
use grammar_gen::generate_cfg_generator;
use grammar_gen::generator::Generator;
use grammar_gen::names::numbered_name;
use grammar_gen::symbol::SymbolKind;

fn lit(text: &str) -> Expr {
    Expr::Str(text.to_string())
}

fn ident(name: &str) -> Expr {
    Expr::Ident(name.to_string())
}

fn seq(left: Expr, right: Expr) -> Expr {
    Expr::Sequence(Box::new(left), Box::new(right))
}

fn choice(left: Expr, right: Expr) -> Expr {
    Expr::Choice(Box::new(left), Box::new(right), None)
}

fn rule(name: &str, ty: RuleType, expr: Expr) -> Rule {
    Rule { name: name.to_string(), ty, expr }
}

fn pairs(generator: &Generator) -> Vec<(u32, Vec<u32>)> {
    generator.rules().into_iter().map(|p| (p.lhs, p.rhs)).collect()
}

#[test]
fn numbered_names() {
    assert_eq!(numbered_name("s_", 0), "s_0");
    assert_eq!(numbered_name("r_", 7), "r_7");
    assert_eq!(numbered_name("neg_", 10), "neg_10");
    assert_eq!(numbered_name("g_", 4294967295), "g_4294967295");
    assert_eq!(numbered_name("", 1203), "1203");
}

#[test]
fn interning_a_name_is_idempotent() {
    let mut generator = Generator::new();
    let a = generator.intern_ident("a".to_string()).unwrap();
    let b = generator.intern_ident("b".to_string()).unwrap();
    assert_eq!((a, b), (0, 1));
    assert_eq!(generator.intern_ident("a".to_string()).unwrap(), a);
    assert_eq!(generator.intern_ident("b".to_string()).unwrap(), b);
    assert_eq!(generator.decl_symbols(), vec!["a".to_string(), "b".to_string()]);
}

#[test]
fn interning_a_range_is_idempotent() {
    let mut generator = Generator::new();
    let x = generator.intern_chars('x', 'x').unwrap();
    let az = generator.intern_chars('a', 'z').unwrap();
    assert_eq!((x, az), (0, 1));
    assert_eq!(generator.intern_chars('x', 'x').unwrap(), x);
    assert_eq!(generator.intern_chars('a', 'z').unwrap(), az);
    assert_eq!(generator.intern_chars('a', 'y').unwrap(), 2);
    let rows = generator.stmt_char_from_sym();
    let kinds: Vec<(String, u32, SymbolKind)> =
        rows.into_iter().map(|e| (e.name, e.sym.symbol, e.sym.kind)).collect();
    assert_eq!(
        kinds,
        vec![
            ("s_0".to_string(), 0, SymbolKind::Single('x')),
            ("s_1".to_string(), 1, SymbolKind::Range('a', 'z')),
            ("s_2".to_string(), 2, SymbolKind::Range('a', 'y')),
        ]
    );
}

#[test]
fn a_rule_named_like_a_generated_symbol_is_refused() {
    let mut generator = Generator::new();
    generator.intern_chars('x', 'x').unwrap();
    match generator.intern_ident("s_0".to_string()) {
        Err(CompileError::NameTaken(name)) => assert_eq!(name, "s_0"),
        other => panic!("{:?}", other),
    }
    // The other way round the generated name finds the rule in its place.
    let mut generator = Generator::new();
    assert_eq!(generator.intern_ident("s_1".to_string()).unwrap(), 0);
    match generator.intern_chars('x', 'x') {
        Err(CompileError::NameTaken(name)) => assert_eq!(name, "s_1"),
        other => panic!("{:?}", other),
    }
    let rules = vec![rule("r_1", RuleType::Atomic, choice(lit("a"), lit("b")))];
    match generate_cfg_generator(&rules) {
        Err(CompileError::NameTaken(name)) => assert_eq!(name, "r_1"),
        other => panic!("{:?}", other.map(|_| ())),
    }
}

#[test]
fn a_symbol_gets_one_name() {
    let mut generator = Generator::new();
    generator.add_rule(3).unwrap();
    assert!(matches!(generator.add_negative_sym(3), Err(CompileError::NameTaken(_))));
    assert!(matches!(generator.add_rule(3), Err(CompileError::NameTaken(_))));
    assert_eq!(generator.decl_symbols(), vec!["r_3".to_string()]);
}

#[test]
fn names_are_kept_in_ascending_order() {
    let mut generator = Generator::new();
    for name in ["m", "b", "z", "a", "ab", "B", "mm", ""] {
        generator.intern_ident(name.to_string()).unwrap();
    }
    let names = generator.decl_symbols();
    assert_eq!(names, vec!["", "B", "a", "ab", "b", "m", "mm", "z"]);
    let mut sorted = names.clone();
    sorted.sort();
    sorted.dedup();
    assert_eq!(names, sorted);
    assert_eq!(generator.intern_ident("ab".to_string()).unwrap(), 4);
}

#[test]
fn only_nonterminals_with_a_production_start_a_derivation() {
    let mut generator = Generator::new();
    generator
        .process_rule(&rule("a", RuleType::Atomic, seq(lit("x"), seq(ident("SOI"), ident("b")))))
        .unwrap();
    assert_eq!(generator.match_start("a"), Some(0));
    assert_eq!(generator.match_start("s_1"), None);
    assert_eq!(generator.match_start("SOI"), None);
    assert_eq!(generator.match_start("b"), None);
    assert_eq!(generator.match_start("c"), None);
}

#[test]
fn literal_gives_one_terminal_per_character() {
    let mut generator = Generator::new();
    let syms = generator.process_expr(&lit("abca"), RuleType::Normal).unwrap();
    assert_eq!(syms, vec![0, 1, 2, 0]);
    assert!(generator.process_expr(&lit(""), RuleType::Normal).unwrap().is_empty());
    assert!(pairs(&generator).is_empty());
}

#[test]
fn sequence_splices_whitespace_in_non_atomic_rules_only() {
    let mut generator = Generator::new();
    let syms = generator.process_expr(&seq(lit("a"), lit("b")), RuleType::NonAtomic).unwrap();
    assert_eq!(syms, vec![0, 1, 2]);
    assert_eq!(generator.decl_symbols(), vec!["WHITESPACE", "s_0", "s_2"]);
    for ty in [RuleType::Normal, RuleType::Silent, RuleType::Atomic, RuleType::CompoundAtomic] {
        let syms = generator.process_expr(&seq(lit("a"), lit("b")), ty).unwrap();
        assert_eq!(syms, vec![0, 2]);
    }
}

#[test]
fn choice_gets_a_fresh_nonterminal_with_both_alternatives() {
    let mut generator = Generator::new();
    let syms = generator.process_expr(&choice(lit("ab"), lit("c")), RuleType::Atomic).unwrap();
    assert_eq!(syms, vec![0]);
    assert_eq!(pairs(&generator), vec![(0, vec![1, 2]), (0, vec![3])]);
    assert_eq!(generator.match_start("r_0"), Some(0));
}

#[test]
fn weighted_choice_owns_its_alternatives() {
    let mut generator = Generator::new();
    let expr = Expr::Choice(Box::new(lit("ab")), Box::new(lit("")), Some((2, 3)));
    let syms = generator.process_expr(&expr, RuleType::Atomic).unwrap();
    assert_eq!(syms, vec![0]);
    assert_eq!(pairs(&generator), vec![(0, vec![1, 2]), (0, vec![])]);
    assert_eq!(generator.decl_symbols(), vec!["r_0", "s_1", "s_2"]);
}

#[test]
fn option_adds_the_empty_alternative() {
    let mut generator = Generator::new();
    let syms = generator.process_expr(&Expr::Opt(Box::new(lit("a"))), RuleType::Atomic).unwrap();
    assert_eq!(syms, vec![0]);
    assert_eq!(pairs(&generator), vec![(0, vec![1]), (0, vec![])]);
}

#[test]
fn repetition_becomes_recursive_productions() {
    let mut generator = Generator::new();
    let expr = Expr::Rep(Box::new(lit("a")), 0, None);
    let syms = generator.process_expr(&expr, RuleType::Atomic).unwrap();
    assert_eq!(syms, vec![0]);
    assert!(pairs(&generator).is_empty());
    generator.rewrite_sequences();
    assert_eq!(
        pairs(&generator),
        vec![(0, vec![]), (0, vec![2]), (2, vec![1]), (2, vec![2, 1])]
    );
}

#[test]
fn repetition_of_several_symbols_repeats_a_nonterminal() {
    let mut generator = Generator::new();
    let expr = Expr::Rep(Box::new(lit("ab")), 1, Some(1));
    let syms = generator.process_expr(&expr, RuleType::Atomic).unwrap();
    assert_eq!(syms, vec![0]);
    assert_eq!(pairs(&generator), vec![(3, vec![1, 2])]);
    generator.rewrite_sequences();
    assert_eq!(pairs(&generator), vec![(3, vec![1, 2]), (0, vec![3])]);
}

#[test]
fn negative_lookahead_registers_a_marker() {
    let mut generator = Generator::new();
    let expr = Expr::NegPred(Box::new(lit("foo")));
    let syms = generator.process_expr(&expr, RuleType::Atomic).unwrap();
    assert_eq!(syms, vec![0]);
    assert_eq!(pairs(&generator), vec![(0, vec![])]);
    let decls: Vec<(String, String)> =
        generator.decl_negative_rules().unwrap().into_iter().map(|d| (d.name, d.chars)).collect();
    assert_eq!(decls, vec![("neg_0".to_string(), "foo".to_string())]);
}

#[test]
fn negative_lookahead_over_ascii_alpha_forbids_the_52_letters() {
    let mut generator = Generator::new();
    let expr = Expr::NegPred(Box::new(ident("ASCII_ALPHA")));
    generator.process_expr(&expr, RuleType::Atomic).unwrap();
    let decls = generator.decl_negative_rules().unwrap();
    assert_eq!(decls.len(), 52);
    let forbidden: String = decls.iter().map(|d| d.chars.as_str()).collect();
    assert_eq!(forbidden, "abcdefghijklmnopqrstuvwxyzABCDEFGHIJKLMNOPQRSTUVWXYZ");
    assert_eq!(pairs(&generator), vec![(0, vec![])]);
    assert!(decls.iter().all(|d| d.name == "neg_0"));
}

#[test]
fn unsupported_lookahead_operand() {
    let mut generator = Generator::new();
    let expr = Expr::NegPred(Box::new(Expr::Range('a', 'b')));
    assert!(matches!(
        generator.process_expr(&expr, RuleType::Atomic),
        Err(CompileError::UnsupportedLookahead)
    ));
}

#[test]
fn classification_of_well_known_terminals() {
    let mut generator = Generator::new();
    let names = ["SOI", "EOI", "ASCII_ALPHA", "ASCII_ALPHANUMERIC", "ASCII_DIGIT", "ANY"];
    let mut expr = lit("");
    for name in names {
        expr = seq(expr, ident(name));
    }
    generator.process_rule(&rule("r", RuleType::Atomic, expr)).unwrap();
    generator.rewrite_sequences();
    generator.update_chars().unwrap();
    let kinds: Vec<(String, SymbolKind)> =
        generator.stmt_char_from_sym().into_iter().map(|e| (e.name, e.sym.kind)).collect();
    assert_eq!(
        kinds,
        vec![
            ("ANY".to_string(), SymbolKind::Range(' ', '~')),
            ("ASCII_ALPHA".to_string(), SymbolKind::Range('a', 'z')),
            ("ASCII_ALPHANUMERIC".to_string(), SymbolKind::Range('a', 'z')),
            ("ASCII_DIGIT".to_string(), SymbolKind::Range('0', '9')),
            ("EOI".to_string(), SymbolKind::Null),
            ("SOI".to_string(), SymbolKind::Null),
        ]
    );
}

#[test]
fn classification_reports_the_first_unknown_terminal() {
    let mut generator = Generator::new();
    generator
        .process_rule(&rule("r", RuleType::Atomic, seq(ident("later"), ident("sooner"))))
        .unwrap();
    generator.rewrite_sequences();
    match generator.update_chars() {
        Err(CompileError::UnknownRule(name)) => assert_eq!(name, "later"),
        other => panic!("{:?}", other),
    }
}

#[test]
fn declarations_name_every_symbol() {
    let rules = vec![rule(
        "A",
        RuleType::Atomic,
        seq(lit("x"), Expr::Rep(Box::new(choice(lit("y"), lit("z"))), 0, None)),
    )];
    let source = generate_cfg_generator(&rules).unwrap();
    let decls: Vec<(String, Vec<String>)> =
        source.rules.into_iter().map(|d| (d.lhs, d.rhs)).collect();
    let names = |v: &[&str]| v.iter().map(|s| s.to_string()).collect::<Vec<_>>();
    assert_eq!(
        decls,
        vec![
            ("r_3".to_string(), names(&["s_4"])),
            ("r_3".to_string(), names(&["s_5"])),
            ("A".to_string(), names(&["s_1", "r_2"])),
            ("r_2".to_string(), names(&[])),
            ("r_2".to_string(), names(&["g_6"])),
            ("g_6".to_string(), names(&["r_3"])),
            ("g_6".to_string(), names(&["g_6", "r_3"])),
        ]
    );
    assert_eq!(source.symbols, names(&["A", "g_6", "r_2", "r_3", "s_1", "s_4", "s_5"]));
    let chars: Vec<(String, SymbolKind)> =
        source.chars.into_iter().map(|e| (e.name, e.sym.kind)).collect();
    assert_eq!(
        chars,
        vec![
            ("s_1".to_string(), SymbolKind::Single('x')),
            ("s_4".to_string(), SymbolKind::Single('y')),
            ("s_5".to_string(), SymbolKind::Single('z')),
        ]
    );
    assert!(source.negative_rules.is_empty());
}

#[test]
fn every_name_in_a_declaration_is_declared_once() {
    let rules = vec![
        rule("b", RuleType::NonAtomic, seq(ident("a"), Expr::Rep(Box::new(ident("a")), 2, Some(5)))),
        rule("WHITESPACE", RuleType::Atomic, lit(" ")),
        rule(
            "a",
            RuleType::Atomic,
            seq(Expr::NegPred(Box::new(lit("if"))), choice(ident("ASCII_ALPHA"), ident("SOI"))),
        ),
    ];
    let source = generate_cfg_generator(&rules).unwrap();
    let mut sorted = source.symbols.clone();
    sorted.sort();
    sorted.dedup();
    assert_eq!(source.symbols, sorted);
    for decl in &source.rules {
        assert!(source.symbols.contains(&decl.lhs));
        for name in &decl.rhs {
            assert!(source.symbols.contains(name));
        }
    }
    let markers: Vec<(&str, &str)> =
        source.negative_rules.iter().map(|d| (d.name.as_str(), d.chars.as_str())).collect();
    assert_eq!(markers, vec![("neg_5", "if")]);
    assert!(source.symbols.contains(&"neg_5".to_string()));
    let chars: Vec<&str> = source.chars.iter().map(|e| e.name.as_str()).collect();
    assert_eq!(chars, vec!["ASCII_ALPHA", "SOI", "s_4"]);
    for name in chars {
        assert!(source.symbols.contains(&name.to_string()));
    }
}

#[test]
fn declarations_report_compile_errors() {
    let rules = vec![rule("a", RuleType::Atomic, ident("b"))];
    match generate_cfg_generator(&rules) {
        Err(CompileError::UnknownRule(name)) => assert_eq!(name, "b"),
        other => panic!("{:?}", other.map(|_| ())),
    }
}

#[test]
fn rule_types_and_whitespace() {
    assert!(RuleType::NonAtomic.splices_whitespace());
    assert!(!RuleType::Atomic.splices_whitespace());
    assert!(!RuleType::CompoundAtomic.splices_whitespace());
    assert!(!RuleType::Normal.splices_whitespace());
    assert!(!RuleType::Silent.splices_whitespace());
}

use grammar_gen::error::{CompileError, GenError};
use grammar_gen::expr::{Expr, Rule, RuleType};
use grammar_gen::NoirParser;

fn lit(text: &str) -> Expr {
    Expr::Str(text.to_string())
}

fn ident(name: &str) -> Expr {
    Expr::Ident(name.to_string())
}

fn seq(left: Expr, right: Expr) -> Expr {
    Expr::Sequence(Box::new(left), Box::new(right))
}

fn choice(left: Expr, right: Expr) -> Expr {
    Expr::Choice(Box::new(left), Box::new(right), None)
}

fn star(inner: Expr) -> Expr {
    Expr::Rep(Box::new(inner), 0, None)
}

fn rule(name: &str, ty: RuleType, expr: Expr) -> Rule {
    Rule { name: name.to_string(), ty, expr }
}

fn x_then_y_or_z() -> Vec<Rule> {
    vec![rule("A", RuleType::Normal, seq(lit("x"), star(choice(lit("y"), lit("z")))))]
}

#[test]
fn test_generate() {
    let rules = vec![rule("module", RuleType::Atomic, seq(ident("SOI"), ident("EOI")))];
    let parser = NoirParser::new(&rules, "module").unwrap();
    let code = parser.generate("module", &[1, 2, 42], None).unwrap();
    println!("{:?}", code);
    assert_eq!(code, "");
}

#[test]
fn empty_buffer_gives_zero_repetitions() {
    let parser = NoirParser::new(&x_then_y_or_z(), "A").unwrap();
    assert_eq!(parser.generate("A", &[], Some(10)), Ok("x".to_string()));
}

#[test]
fn one_byte_selects_one_repetition() {
    let parser = NoirParser::new(&x_then_y_or_z(), "A").unwrap();
    assert_eq!(parser.generate("A", &[1], Some(10)), Ok("xy".to_string()));
}

#[test]
fn later_bytes_select_later_choices() {
    let parser = NoirParser::new(&x_then_y_or_z(), "A").unwrap();
    // 1: repeat; 0: a single item; 1: the second alternative.
    assert_eq!(parser.generate("A", &[1, 0, 1], Some(10)), Ok("xz".to_string()));
    // 1: repeat; 1: more than one item; 0: a single item first; 1: "z"; 0: "y".
    assert_eq!(parser.generate("A", &[1, 1, 0, 1, 0], Some(10)), Ok("xzy".to_string()));
}

#[test]
fn generation_is_deterministic() {
    let parser = NoirParser::new(&x_then_y_or_z(), "A").unwrap();
    let bytes = [7u8, 200, 13, 1, 1, 1, 0, 99];
    let first = parser.generate("A", &bytes, Some(50));
    let second = parser.generate("A", &bytes, Some(50));
    assert_eq!(first, second);
    let again = NoirParser::new(&x_then_y_or_z(), "A").unwrap();
    assert_eq!(again.generate("A", &bytes, Some(50)), first);
}

#[test]
fn output_never_exceeds_the_ceiling() {
    let parser = NoirParser::new(&x_then_y_or_z(), "A").unwrap();
    for ceiling in 0..6u64 {
        for seed in 0..=255u8 {
            let bytes = [seed, seed.wrapping_mul(31), 1, seed, 1, 1, 1, 1];
            match parser.generate("A", &bytes, Some(ceiling)) {
                Ok(text) => assert!(text.chars().count() as u64 <= ceiling),
                Err(e) => assert_eq!(e, GenError::SizeLimitExceeded),
            }
        }
    }
}

#[test]
fn ceiling_of_zero_allows_the_empty_string_only() {
    let rules = vec![rule("e", RuleType::Atomic, Expr::Opt(Box::new(lit("a"))))];
    let parser = NoirParser::new(&rules, "e").unwrap();
    // The empty production comes first after normalization.
    assert_eq!(parser.generate("e", &[0], Some(0)), Ok(String::new()));
    assert_eq!(parser.generate("e", &[1], Some(0)), Err(GenError::SizeLimitExceeded));
    assert_eq!(parser.generate("e", &[1], Some(1)), Ok("a".to_string()));
}

#[test]
fn runaway_recursion_ends_at_the_step_bound() {
    // a = a | "x": the all-zero entropy always takes the first alternative.
    let rules = vec![rule("a", RuleType::Atomic, choice(ident("a"), lit("x")))];
    let parser = NoirParser::new(&rules, "a").unwrap();
    assert_eq!(parser.generate("a", &[], Some(3)), Err(GenError::SizeLimitExceeded));
    assert_eq!(parser.generate("a", &[0, 0, 0], Some(0)), Err(GenError::SizeLimitExceeded));
    assert_eq!(parser.generate("a", &[1], Some(3)), Ok("x".to_string()));
    // The rule itself owns one production; the choice under it is drawn.
    let direct = vec![
        rule("a", RuleType::Atomic, ident("b")),
        rule("b", RuleType::Atomic, choice(lit("x"), ident("a"))),
    ];
    let parser = NoirParser::new(&direct, "a").unwrap();
    assert_eq!(parser.generate("a", &[1, 1, 0], Some(3)), Ok("x".to_string()));
}

#[test]
fn totality_over_buffers() {
    let parser = NoirParser::new(&x_then_y_or_z(), "A").unwrap();
    let long = vec![0xffu8; 4096];
    let zeros = vec![0u8; 4096];
    assert!(parser.generate("A", &[], None).is_ok());
    assert_eq!(parser.generate("A", &zeros, Some(100)), Ok("x".to_string()));
    let r = parser.generate("A", &long, Some(100));
    match r {
        Ok(text) => assert!(text.starts_with('x') && text.len() <= 100),
        Err(e) => assert_eq!(e, GenError::SizeLimitExceeded),
    }
}

#[test]
fn unknown_start_rule_is_a_caller_error() {
    let parser = NoirParser::new(&x_then_y_or_z(), "A").unwrap();
    assert_eq!(parser.generate("B", &[1], Some(10)), Err(GenError::UnknownStartRule));
    assert_eq!(parser.generate("s_1", &[1], Some(10)), Err(GenError::UnknownStartRule));
    assert_eq!(parser.start_of("A"), Some(0));
    assert_eq!(parser.start_of("nothing"), None);
}

#[test]
fn negative_lookahead_forbids_the_literal() {
    // r = !"foo" ~ ("foo" | "bar")
    let rules = vec![rule(
        "r",
        RuleType::Atomic,
        seq(Expr::NegPred(Box::new(lit("foo"))), choice(lit("foo"), lit("bar"))),
    )];
    let parser = NoirParser::new(&rules, "r").unwrap();
    for seed in 0..=255u8 {
        let text = parser.generate("r", &[seed, seed], Some(10)).unwrap();
        assert_eq!(text, "bar");
    }
    assert_eq!(parser.generate("r", &[], Some(10)), Ok("bar".to_string()));
}

#[test]
fn negative_lookahead_applies_right_after_the_marker() {
    // r = "a" ~ !"b" ~ ("b" | "c") ~ "b"
    let rules = vec![rule(
        "r",
        RuleType::Atomic,
        seq(
            lit("a"),
            seq(Expr::NegPred(Box::new(lit("b"))), seq(choice(lit("b"), lit("c")), lit("b"))),
        ),
    )];
    let parser = NoirParser::new(&rules, "r").unwrap();
    for seed in 0..=255u8 {
        assert_eq!(parser.generate("r", &[seed], Some(10)), Ok("acb".to_string()));
    }
}

#[test]
fn unsatisfiable_constraint_is_reported() {
    // r = !"a" ~ "a"
    let rules = vec![rule("r", RuleType::Atomic, seq(Expr::NegPred(Box::new(lit("a"))), lit("a")))];
    let parser = NoirParser::new(&rules, "r").unwrap();
    assert_eq!(
        parser.generate("r", &[1, 2, 3], Some(10)),
        Err(GenError::NegativeConstraintUnsatisfiable)
    );
    // Nothing can follow a marker that forbids the empty string.
    let rules = vec![rule("r", RuleType::Atomic, seq(Expr::NegPred(Box::new(lit(""))), lit("a")))];
    let parser = NoirParser::new(&rules, "r").unwrap();
    assert_eq!(
        parser.generate("r", &[], Some(10)),
        Err(GenError::NegativeConstraintUnsatisfiable)
    );
}

#[test]
fn ascii_alpha_lookahead_allows_digits() {
    // r = !ASCII_ALPHA ~ ('0'..'9' | 'a'..'z')
    let rules = vec![rule(
        "r",
        RuleType::Atomic,
        seq(
            Expr::NegPred(Box::new(ident("ASCII_ALPHA"))),
            choice(Expr::Range('0', '9'), Expr::Range('a', 'z')),
        ),
    )];
    let parser = NoirParser::new(&rules, "r").unwrap();
    assert_eq!(parser.generate("r", &[0, 7], Some(4)), Ok("7".to_string()));
    for seed in 0..=255u8 {
        let text = parser.generate("r", &[seed, seed], Some(4)).unwrap();
        assert!(text.chars().all(|c| c.is_ascii_digit()), "{:?}", text);
    }
}

#[test]
fn ascii_alpha_lookahead_forbids_letters() {
    // r = !ASCII_ALPHA ~ ('a'..'c' | "-")
    let rules = vec![rule(
        "r",
        RuleType::Atomic,
        seq(Expr::NegPred(Box::new(ident("ASCII_ALPHA"))), choice(Expr::Range('a', 'c'), lit("-"))),
    )];
    let parser = NoirParser::new(&rules, "r").unwrap();
    for seed in 0..=255u8 {
        assert_eq!(parser.generate("r", &[seed, seed], Some(4)), Ok("-".to_string()));
    }
}

#[test]
fn ranges_draw_across_the_inclusive_span() {
    let rules = vec![rule("d", RuleType::Atomic, Expr::Range('0', '9'))];
    let parser = NoirParser::new(&rules, "d").unwrap();
    assert_eq!(parser.generate("d", &[], Some(1)), Ok("0".to_string()));
    assert_eq!(parser.generate("d", &[9], Some(1)), Ok("9".to_string()));
    assert_eq!(parser.generate("d", &[10], Some(1)), Ok("0".to_string()));
    assert_eq!(parser.generate("d", &[255], Some(1)), Ok("5".to_string()));
}

#[test]
fn ranges_pass_over_the_surrogates() {
    let rules = vec![rule("d", RuleType::Atomic, Expr::Range('\u{D7FE}', '\u{E001}'))];
    let parser = NoirParser::new(&rules, "d").unwrap();
    assert_eq!(parser.generate("d", &[0], Some(1)), Ok("\u{D7FE}".to_string()));
    assert_eq!(parser.generate("d", &[1], Some(1)), Ok("\u{D7FF}".to_string()));
    assert_eq!(parser.generate("d", &[2], Some(1)), Ok("\u{E000}".to_string()));
    assert_eq!(parser.generate("d", &[3], Some(1)), Ok("\u{E001}".to_string()));
    assert_eq!(parser.generate("d", &[4], Some(1)), Ok("\u{D7FE}".to_string()));
}

#[test]
fn well_known_terminals() {
    let rules = vec![rule(
        "w",
        RuleType::Atomic,
        seq(
            ident("SOI"),
            seq(
                ident("ASCII_ALPHA"),
                seq(ident("ASCII_DIGIT"), seq(ident("ANY"), seq(ident("ASCII_ALPHANUMERIC"), ident("EOI")))),
            ),
        ),
    )];
    let parser = NoirParser::new(&rules, "w").unwrap();
    assert_eq!(parser.generate("w", &[], Some(10)), Ok("a0 a".to_string()));
    assert_eq!(parser.generate("w", &[25, 9, 94, 1], Some(10)), Ok("z9~b".to_string()));
    assert_eq!(parser.generate("w", &[26, 10, 95, 27], Some(10)), Ok("a0 b".to_string()));
}

#[test]
fn implicit_whitespace_in_non_atomic_rules_only() {
    let rules = vec![
        rule("WHITESPACE", RuleType::Atomic, lit(" ")),
        rule("n", RuleType::Normal, seq(lit("a"), lit("b"))),
        rule("a", RuleType::Atomic, seq(lit("a"), lit("b"))),
        rule("c", RuleType::CompoundAtomic, seq(lit("a"), lit("b"))),
        rule("s", RuleType::Silent, seq(lit("a"), lit("b"))),
        rule("x", RuleType::NonAtomic, seq(lit("a"), lit("b"))),
    ];
    let parser = NoirParser::new(&rules, "n").unwrap();
    assert_eq!(parser.generate("n", &[], None), Ok("ab".to_string()));
    assert_eq!(parser.generate("a", &[], None), Ok("ab".to_string()));
    assert_eq!(parser.generate("c", &[], None), Ok("ab".to_string()));
    assert_eq!(parser.generate("s", &[], None), Ok("ab".to_string()));
    assert_eq!(parser.generate("x", &[], None), Ok("a b".to_string()));
}

#[test]
fn lookahead_and_weight_markers_emit_nothing() {
    let rules = vec![rule(
        "p",
        RuleType::Atomic,
        seq(Expr::PosPred(Box::new(lit("zzz"))), seq(Expr::Weight, lit("a"))),
    )];
    let parser = NoirParser::new(&rules, "p").unwrap();
    assert_eq!(parser.generate("p", &[5], Some(5)), Ok("a".to_string()));
}

#[test]
fn case_insensitive_literals_are_emitted_as_written() {
    let rules = vec![rule("i", RuleType::Atomic, Expr::Insens("AbC".to_string()))];
    let parser = NoirParser::new(&rules, "i").unwrap();
    assert_eq!(parser.generate("i", &[1, 2, 3], Some(5)), Ok("AbC".to_string()));
}

#[test]
fn bounded_repetition_stays_within_its_bounds() {
    let rules = vec![rule("b", RuleType::Atomic, Expr::Rep(Box::new(lit("a")), 2, Some(4)))];
    let parser = NoirParser::new(&rules, "b").unwrap();
    for seed in 0..=255u8 {
        let bytes = [seed, seed / 2, seed / 4, seed / 8, seed / 16, seed, seed];
        let text = parser.generate("b", &bytes, Some(20)).unwrap();
        assert!(text.len() >= 2 && text.len() <= 4, "{:?}", text);
        assert!(text.chars().all(|c| c == 'a'));
    }
}

#[test]
fn weighted_choice_divides_the_draw_by_weight() {
    let rules = vec![rule(
        "w",
        RuleType::Atomic,
        Expr::Choice(Box::new(lit("l")), Box::new(lit("r")), Some((3, 1))),
    )];
    let parser = NoirParser::new(&rules, "w").unwrap();
    assert_eq!(parser.generate("w", &[0], Some(1)), Ok("l".to_string()));
    assert_eq!(parser.generate("w", &[1], Some(1)), Ok("l".to_string()));
    assert_eq!(parser.generate("w", &[2], Some(1)), Ok("l".to_string()));
    assert_eq!(parser.generate("w", &[3], Some(1)), Ok("r".to_string()));
    assert_eq!(parser.generate("w", &[4], Some(1)), Ok("l".to_string()));
    // The alternatives are told apart wherever normalization puts them.
    let right_empty = vec![rule(
        "w",
        RuleType::Atomic,
        Expr::Choice(Box::new(lit("l")), Box::new(lit("")), Some((3, 1))),
    )];
    let parser = NoirParser::new(&right_empty, "w").unwrap();
    assert_eq!(parser.generate("w", &[0], Some(1)), Ok("l".to_string()));
    assert_eq!(parser.generate("w", &[2], Some(1)), Ok("l".to_string()));
    assert_eq!(parser.generate("w", &[3], Some(1)), Ok(String::new()));
    let left_empty = vec![rule(
        "w",
        RuleType::Atomic,
        Expr::Choice(Box::new(lit("")), Box::new(lit("r")), Some((3, 1))),
    )];
    let parser = NoirParser::new(&left_empty, "w").unwrap();
    assert_eq!(parser.generate("w", &[0], Some(1)), Ok(String::new()));
    assert_eq!(parser.generate("w", &[2], Some(1)), Ok(String::new()));
    assert_eq!(parser.generate("w", &[3], Some(1)), Ok("r".to_string()));
    let long = vec![rule(
        "w",
        RuleType::Atomic,
        Expr::Choice(Box::new(lit("left")), Box::new(lit("right")), Some((1, 3))),
    )];
    let parser = NoirParser::new(&long, "w").unwrap();
    assert_eq!(parser.generate("w", &[0], Some(5)), Ok("left".to_string()));
    assert_eq!(parser.generate("w", &[1], Some(5)), Ok("right".to_string()));
    assert_eq!(parser.generate("w", &[3], Some(5)), Ok("right".to_string()));
    let never = vec![rule(
        "w",
        RuleType::Atomic,
        Expr::Choice(Box::new(lit("l")), Box::new(lit("r")), Some((0, 5))),
    )];
    let parser = NoirParser::new(&never, "w").unwrap();
    for seed in 0..=255u8 {
        assert_eq!(parser.generate("w", &[seed], Some(1)), Ok("r".to_string()));
    }
}

#[test]
fn unknown_rule_reference_is_a_compile_error() {
    let rules = vec![rule("a", RuleType::Atomic, seq(lit("x"), ident("missing")))];
    match NoirParser::new(&rules, "a") {
        Err(CompileError::UnknownRule(name)) => assert_eq!(name, "missing"),
        other => panic!("{:?}", other.map(|_| ())),
    }
    // In a non-atomic rule a sequence refers to the whitespace rule.
    let rules = vec![rule("a", RuleType::NonAtomic, seq(lit("x"), lit("y")))];
    match NoirParser::new(&rules, "a") {
        Err(CompileError::UnknownRule(name)) => assert_eq!(name, "WHITESPACE"),
        other => panic!("{:?}", other.map(|_| ())),
    }
    // A plain rule needs no whitespace rule.
    let rules = vec![rule("a", RuleType::Normal, seq(lit("x"), lit("y")))];
    let parser = NoirParser::new(&rules, "a").unwrap();
    assert_eq!(parser.generate("a", &[], Some(2)), Ok("xy".to_string()));
}

#[test]
fn unsupported_lookahead_is_a_compile_error() {
    for operand in [Expr::Range('a', 'z'), ident("ASCII_DIGIT"), seq(lit("a"), lit("b")), Expr::Insens("a".to_string())] {
        let rules = vec![rule("a", RuleType::Atomic, seq(Expr::NegPred(Box::new(operand)), lit("x")))];
        assert!(matches!(NoirParser::new(&rules, "a"), Err(CompileError::UnsupportedLookahead)));
    }
}

#[test]
fn empty_start_rule_is_a_compile_error() {
    let rules = x_then_y_or_z();
    assert!(matches!(NoirParser::new(&rules, "B"), Err(CompileError::EmptyStartRule)));
    assert!(matches!(NoirParser::new(&Vec::new(), "A"), Err(CompileError::EmptyStartRule)));
    // A well-known terminal has a name and no production.
    let rules = vec![rule("a", RuleType::Atomic, ident("SOI"))];
    assert!(matches!(NoirParser::new(&rules, "SOI"), Err(CompileError::EmptyStartRule)));
    assert!(NoirParser::compile(&Vec::new()).is_ok());
}

#[test]
fn inverted_bounds_are_a_compile_error() {
    let rules = vec![rule("a", RuleType::Atomic, Expr::Range('z', 'a'))];
    assert!(matches!(NoirParser::new(&rules, "a"), Err(CompileError::InvalidBounds)));
    let rules = vec![rule("a", RuleType::Atomic, Expr::Rep(Box::new(lit("a")), 3, Some(2)))];
    assert!(matches!(NoirParser::new(&rules, "a"), Err(CompileError::InvalidBounds)));
    let rules = vec![rule("a", RuleType::Atomic, Expr::Rep(Box::new(lit("a")), 0, Some(u32::MAX)))];
    assert!(matches!(NoirParser::new(&rules, "a"), Err(CompileError::InvalidBounds)));
}

#[test]
fn repeated_empty_alternatives_are_compiled() {
    // Both alternatives derive the empty string, and so does the option.
    let rules = vec![rule(
        "a",
        RuleType::Atomic,
        seq(choice(lit(""), Expr::Weight), seq(Expr::Opt(Box::new(lit(""))), lit("k"))),
    )];
    let parser = NoirParser::new(&rules, "a").unwrap();
    for seed in 0..4u8 {
        assert_eq!(parser.generate("a", &[seed, seed], Some(3)), Ok("k".to_string()));
    }
}

#[test]
fn repetition_of_nothing_is_compiled() {
    let rules = vec![rule("a", RuleType::Atomic, seq(star(Expr::Weight), lit("k")))];
    let parser = NoirParser::new(&rules, "a").unwrap();
    assert_eq!(parser.generate("a", &[], Some(3)), Ok("k".to_string()));
}

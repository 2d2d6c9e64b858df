use grammar_gen::error::GenError;
use grammar_gen::expr::{Expr, Rule, RuleType};
use grammar_gen::NoirParser;

fn lit(text: &str) -> Expr {
    Expr::Str(text.to_string())
}

fn ident(name: &str) -> Expr {
    Expr::Ident(name.to_string())
}

fn seq(parts: Vec<Expr>) -> Expr {
    let mut parts = parts.into_iter().rev();
    let mut result = parts.next().unwrap();
    for part in parts {
        result = Expr::Sequence(Box::new(part), Box::new(result));
    }
    result
}

fn choice(parts: Vec<Expr>) -> Expr {
    let mut parts = parts.into_iter().rev();
    let mut result = parts.next().unwrap();
    for part in parts {
        result = Expr::Choice(Box::new(part), Box::new(result), None);
    }
    result
}

fn star(inner: Expr) -> Expr {
    Expr::Rep(Box::new(inner), 0, None)
}

fn not(text: &str) -> Expr {
    Expr::NegPred(Box::new(lit(text)))
}

fn rule(name: &str, ty: RuleType, expr: Expr) -> Rule {
    Rule { name: name.to_string(), ty, expr }
}

/// A small language of functions with a `for` loop over a range.
fn language() -> Vec<Rule> {
    vec![
        rule("WHITESPACE", RuleType::Atomic, lit(" ")),
        rule("program", RuleType::NonAtomic, seq(vec![ident("SOI"), star(ident("function")), ident("EOI")])),
        rule(
            "function",
            RuleType::NonAtomic,
            seq(vec![lit("fn"), ident("name"), lit("("), lit(")"), ident("block")]),
        ),
        rule("block", RuleType::NonAtomic, seq(vec![lit("{"), star(ident("statement")), lit("}")])),
        rule(
            "statement",
            RuleType::NonAtomic,
            choice(vec![
                seq(vec![lit("for"), ident("name"), lit("in"), ident("range"), ident("block")]),
                seq(vec![ident("name"), lit("="), ident("number"), lit(";")]),
            ]),
        ),
        rule("range", RuleType::Atomic, seq(vec![ident("number"), lit(".."), ident("number")])),
        rule(
            "name",
            RuleType::Atomic,
            seq(vec![
                not("fn"),
                not("for"),
                not("in"),
                Expr::Range('a', 'z'),
                Expr::Rep(Box::new(ident("ASCII_ALPHANUMERIC")), 0, Some(3)),
            ]),
        ),
        rule("number", RuleType::Atomic, Expr::Rep(Box::new(ident("ASCII_DIGIT")), 1, Some(3))),
    ]
}

fn bytes(seed: u32, len: usize) -> Vec<u8> {
    let mut state = seed.wrapping_mul(2654435761).wrapping_add(12345);
    (0..len)
        .map(|_| {
            state = state.wrapping_mul(1664525).wrapping_add(1013904223);
            (state >> 24) as u8
        })
        .collect()
}

/// The names of a generated program: what stands between `fn ` or `for ` and
/// the next space, and what starts a statement.
fn names(text: &str) -> Vec<String> {
    let mut found = Vec::new();
    let words: Vec<&str> = text.split(' ').collect();
    for pair in words.windows(2) {
        if pair[0] == "fn" || pair[0] == "for" {
            found.push(pair[1].to_string());
        }
    }
    found
}

#[test]
fn programs_are_generated_under_the_ceiling() {
    let parser = NoirParser::new(&language(), "program").unwrap();
    let mut generated = 0;
    for seed in 0..400u32 {
        let driver = bytes(seed, 64);
        match parser.generate("program", &driver, Some(200)) {
            Ok(text) => {
                generated += 1;
                assert!(text.chars().count() <= 200);
                assert_eq!(parser.generate("program", &driver, Some(200)), Ok(text));
            }
            Err(e) => assert_ne!(e, GenError::UnknownStartRule),
        }
    }
    assert!(generated > 0);
}

#[test]
fn names_never_start_with_a_keyword() {
    let parser = NoirParser::new(&language(), "name").unwrap();
    for seed in 0..2000u32 {
        let driver = bytes(seed, 8);
        // 'f' is drawn for 5, 'i' for 8 and 'n' for 13, 'o' for 14, 'r' for 17.
        for head in [[5u8, 1, 13], [5, 1, 14], [8, 1, 13], [0, 0, 0]] {
            let mut driven = head.to_vec();
            driven.extend_from_slice(&driver);
            if let Ok(text) = parser.generate("name", &driven, Some(10)) {
                assert!(!text.starts_with("fn"), "{:?}", text);
                assert!(!text.starts_with("for"), "{:?}", text);
                assert!(!text.starts_with("in"), "{:?}", text);
                assert!(text.chars().next().unwrap().is_ascii_lowercase());
                assert!(text.len() <= 4);
            }
        }
    }
}

#[test]
fn names_in_programs_are_no_keywords() {
    let parser = NoirParser::new(&language(), "program").unwrap();
    for seed in 0..300u32 {
        if let Ok(text) = parser.generate("program", &bytes(seed, 48), Some(300)) {
            for name in names(&text) {
                assert!(!name.starts_with("fn"), "{:?} in {:?}", name, text);
                assert!(!name.starts_with("for"), "{:?} in {:?}", name, text);
                assert!(!name.starts_with("in"), "{:?} in {:?}", name, text);
            }
        }
    }
}

#[test]
fn every_rule_is_a_start_rule() {
    let parser = NoirParser::compile(&language()).unwrap();
    assert_eq!(parser.generate("number", &[], Some(5)), Ok("0".to_string()));
    assert_eq!(parser.generate("number", &[1, 1, 1, 7, 1, 8], Some(5)).map(|t| t.len() <= 3), Ok(true));
    assert_eq!(parser.generate("range", &[], Some(10)), Ok("0..0".to_string()));
    // Whitespace stands at both sides of an empty repetition.
    assert_eq!(parser.generate("program", &[], Some(10)), Ok("  ".to_string()));
    assert_eq!(parser.generate("block", &[], Some(10)), Ok("{  }".to_string()));
    assert_eq!(parser.generate("function", &[], Some(20)), Ok("fn a ( ) {  }".to_string()));
    assert_eq!(parser.generate("WHITESPACE", &[], Some(1)), Ok(" ".to_string()));
    assert_eq!(parser.generate("ASCII_DIGIT", &[], Some(1)), Err(GenError::UnknownStartRule));
}

#[test]
fn the_ceiling_cuts_long_programs() {
    let parser = NoirParser::new(&language(), "function").unwrap();
    assert_eq!(parser.generate("function", &[], Some(12)), Err(GenError::SizeLimitExceeded));
    assert_eq!(parser.generate("function", &[], Some(13)), Ok("fn a ( ) {  }".to_string()));
}

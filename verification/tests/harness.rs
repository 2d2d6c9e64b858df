use grammar_gen::error::GenError;
use grammar_gen::expr::{Expr, Rule, RuleType};
use grammar_gen::fuzz;
use grammar_gen::harness::{Harness, Stage, CEILING};
use grammar_gen::NoirParser;

#[test]
fn fuzzing_stops_at_every_finding() {
    assert_eq!(fuzz(true), Harness { save: true, do_panic: true });
    assert_eq!(fuzz(false), Harness { save: false, do_panic: true });
    assert_eq!(CEILING, 10_000_000);
}

#[test]
fn harness_generates_from_the_program_rule() {
    let rules = vec![Rule {
        name: "program".to_string(),
        ty: RuleType::Atomic,
        expr: Expr::Str("fn".to_string()),
    }];
    let parser = NoirParser::new(&rules, "program").unwrap();
    assert_eq!(fuzz(false).generate(&parser, &[1, 2, 3]), Ok("fn".to_string()));
    let other = vec![Rule {
        name: "module".to_string(),
        ty: RuleType::Atomic,
        expr: Expr::Str("fn".to_string()),
    }];
    let parser = NoirParser::new(&other, "module").unwrap();
    assert_eq!(fuzz(false).generate(&parser, &[1, 2, 3]), Err(GenError::UnknownStartRule));
}

#[test]
fn report_for_each_stage() {
    let harness = Harness { save: true, do_panic: false };
    // A string that was not generated is no finding.
    let r = harness.parse(&Stage::NotGenerated);
    assert_eq!(r.error, "");
    assert_eq!(r.debug, "");
    assert!(r.save && !r.panic);
    assert!(!fuzz(false).parse(&Stage::NotGenerated).panic);
    assert!(!fuzz(true).parse(&Stage::NotGenerated).panic);

    let r = harness.parse(&Stage::NotParsed { code: "fn f".to_string() });
    assert_eq!(r.error, "first unwrap failed");
    assert_eq!(r.debug, "fn f\nERR: first unwrap failed\n");

    let r = harness.parse(&Stage::NoPair { code: "fn f".to_string() });
    assert_eq!(r.error, "second unwrap failed");
    assert_eq!(r.debug, "fn f\nERR: second unwrap failed\n");

    let r = harness.parse(&Stage::Disagreed {
        code: "fn f".to_string(),
        pair: "Pair".to_string(),
        errors: "[E1]".to_string(),
    });
    assert_eq!(r.error, "noir parser failed with errors [E1]");
    assert_eq!(r.debug, "fn f\nPair\nERR: noir parser failed with errors [E1]\n");

    let r = harness.parse(&Stage::Agreed {
        code: "fn f".to_string(),
        pair: "Pair".to_string(),
        program: "Ast".to_string(),
    });
    assert_eq!(r.error, "");
    assert_eq!(r.debug, "fn f\nPair\nAst\n");
    assert!(r.save && !r.panic);
}

#[test]
fn findings_stop_a_fuzzing_run_only() {
    let stage = Stage::NotParsed { code: String::new() };
    assert!(fuzz(false).parse(&stage).panic);
    assert!(!fuzz(false).parse(&stage).save);
    assert!(!Harness { save: false, do_panic: false }.parse(&stage).panic);
    let fine = Stage::Agreed { code: String::new(), pair: String::new(), program: String::new() };
    assert!(!fuzz(true).parse(&fine).panic);
    assert!(fuzz(true).parse(&fine).save);
}

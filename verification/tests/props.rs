use std::str::FromStr;

use bred::equals;
use bred::normal_form;
use bred::Parser;
use bred::Strategy;
use bred::Term;

#[test]
fn free_variable_is_normal_both_ways() {
    let t = Parser::parse("0").unwrap();
    assert_eq!("0", normal_form(&t, Strategy::Normal).format());
    assert_eq!("0", normal_form(&t, Strategy::Applicative).format());
}

#[test]
fn identity_is_normal_both_ways() {
    let t = Parser::parse("\\0.0").unwrap();
    let id = Parser::parse("\\0.0").unwrap();
    assert!(equals(&normal_form(&t, Strategy::Normal), &id));
    assert!(equals(&normal_form(&t, Strategy::Applicative), &id));
    assert_eq!("\\0. 0", normal_form(&t, Strategy::Normal).format());
}

#[test]
fn identity_applied_to_free_variable() {
    let t = Parser::parse("(\\0.0) 0").unwrap();
    assert_eq!("0", normal_form(&t, Strategy::Normal).format());
    assert_eq!("0", normal_form(&t, Strategy::Applicative).format());
}

#[test]
fn constant_first_discards_divergent_argument_normal_order() {
    // The constant-first combinator applied to the identity and to a
    // divergent self-application: normal order never evaluates the
    // unused argument. Applicative order evaluates it first and would
    // not terminate, so only normal order is exercised.
    let t = Parser::parse("((\\1.\\0.1) (\\0.0)) ((\\0.0 0) (\\0.0 0))").unwrap();
    let id = Parser::parse("\\0.0").unwrap();
    assert!(equals(&normal_form(&t, Strategy::Normal), &id));
}

#[test]
fn alpha_equivalence_of_identities() {
    let a = Parser::parse("\\0.0").unwrap();
    let b = Parser::parse("\\1.1").unwrap();
    let c = Parser::parse("\\1.0").unwrap();
    assert_eq!(true, equals(&a, &b));
    assert_eq!(false, equals(&a, &c));
}

#[test]
fn alpha_invariance_under_fresh_relabeling() {
    // The same binding structure under fresh distinct labels, bound
    // variables following their binders.
    let t = Parser::parse("\\0. \\1. 0 1").unwrap();
    let relabeled = Parser::parse("\\7. \\9. 7 9").unwrap();
    assert!(equals(&t, &relabeled));
    // Shadowing is part of the structure: the inner binder wins.
    let shadow = Parser::parse("\\0. \\0. 0").unwrap();
    let shadow_fresh = Parser::parse("\\3. \\5. 5").unwrap();
    assert!(equals(&shadow, &shadow_fresh));
}

#[test]
fn normal_form_is_idempotent() {
    let t = Parser::parse("((\\1.\\0.1) (\\0.0)) ((\\0.0 0) (\\0.0 0))").unwrap();
    let once = normal_form(&t, Strategy::Normal);
    let twice = normal_form(&once, Strategy::Normal);
    assert!(equals(&once, &twice));
    assert_eq!(once.format(), twice.format());

    let u = Parser::parse("(\\0.0) 0").unwrap();
    let once_a = normal_form(&u, Strategy::Applicative);
    let twice_a = normal_form(&once_a, Strategy::Applicative);
    assert!(equals(&once_a, &twice_a));
}

#[test]
fn beta_step_substitutes_the_argument() {
    // (\5. 1 0) 9 substitutes 9 for index 0 and leaves index 1 alone,
    // under either strategy.
    let t = Parser::parse("(\\5. 1 0) 9").unwrap();
    assert_eq!("1 9", normal_form(&t, Strategy::Normal).format());
    assert_eq!("1 9", normal_form(&t, Strategy::Applicative).format());
}

#[test]
fn round_trip_parse_of_format() {
    let texts = [
        "0",
        "4294967295",
        "\\0. 0",
        "\\1. \\0. 1",
        "(\\1. \\0. 1) (\\0. 0) ((\\0. 0 0) \\0. 0 0)",
        "\\4. \\3. \\2. \\1. 1 2 3 4",
        "0 \\0. 0",
        "0 (1 2) 3",
        "(0 1) (2 3)",
    ];
    for text in texts {
        let t = Parser::parse(text).unwrap();
        let printed = t.format();
        let back = Parser::parse(&printed).unwrap();
        assert!(equals(&back, &t));
        assert_eq!(printed, back.format());
    }
}

#[test]
fn parse_rejects_what_the_grammar_does_not_cover() {
    assert!(Parser::parse("").is_err());
    assert!(Parser::parse("(").is_err());
    assert!(Parser::parse("()").is_err());
    assert!(Parser::parse("0)").is_err());
    assert!(Parser::parse("(0").is_err());
    assert!(Parser::parse("\\0").is_err());
    assert!(Parser::parse("\\0.").is_err());
    assert!(Parser::parse("\\.0").is_err());
    assert!(Parser::parse("x").is_err());
    assert!(Parser::parse("0 x").is_err());
    assert!(Parser::parse(" 0").is_err());
}

#[test]
fn parse_bounds_variable_indices() {
    assert_eq!(Term::Var(4294967295), Parser::parse("4294967295").unwrap());
    assert!(Parser::parse("4294967296").is_err());
}

#[test]
fn parse_skips_whitespace_after_tokens() {
    let t = Term::from_str("\\1.\t\\0.\n1 \r0\n").unwrap();
    assert_eq!("\\1. \\0. 1 0", t.format());
}

#[test]
fn printer_parenthesizes_only_where_needed() {
    let t = Parser::parse("((0 1) 2) 3").unwrap();
    assert_eq!("0 1 2 3", t.format());
    let u = Parser::parse("0 (1 (2 3))").unwrap();
    assert_eq!("0 (1 (2 3))", u.format());
    let v = Parser::parse("(\\0. 0) (1 2)").unwrap();
    assert_eq!("(\\0. 0) (1 2)", v.format());
}

#[test]
fn reduction_inside_abstraction_body() {
    let t = Parser::parse("\\3. (\\0. 0 0) 1").unwrap();
    assert_eq!("\\3. 1 1", normal_form(&t, Strategy::Normal).format());
    assert_eq!("\\3. 1 1", normal_form(&t, Strategy::Applicative).format());
}

#[test]
fn applicative_order_stops_at_a_stuck_head() {
    // The head is a free variable, so applicative order leaves the
    // reducible argument's enclosing application alone once the
    // argument itself is normal; the redex inside the function position
    // of the inner application still reduces because it is the argument
    // of the outer one.
    let t = Parser::parse("0 ((\\0.0) 1)").unwrap();
    assert_eq!("0 1", normal_form(&t, Strategy::Applicative).format());
}

#[test]
fn shifting_keeps_free_variables_pointing_outward() {
    // (\0. \1. 1 2) 5: the argument 5 crosses one binder on its way in,
    // so it comes out as 6, and the free 2 in the body stays as it was.
    let t = Parser::parse("(\\0. \\1. 1 2) 5").unwrap();
    assert_eq!("\\1. 6 2", normal_form(&t, Strategy::Normal).format());
}

use std::str::FromStr;

use bred::Term;

#[test]
fn test_format_var() {
    let var = Term::Var(0);

    assert_eq!("0", var.format());
}

#[test]
fn test_format_id() {
    let id = Term::Abs(0, Box::new(Term::Var(0)));

    assert_eq!("\\0. 0", id.format());
}

#[test]
fn test_format_fst() {
    let fst = Term::Abs(1, Box::new(Term::Abs(0, Box::new(Term::Var(1)))));

    assert_eq!("\\1. \\0. 1", fst.format());
}

#[test]
fn format_var() {
    let var = Term::Var(0);

    assert_eq!("0", var.format());
}

#[test]
fn format_id() {
    let id = Term::Abs(0, Box::new(Term::Var(0)));

    assert_eq!("\\0. 0", id.format());
}

#[test]
fn format_fst() {
    let fst = Term::Abs(1, Box::new(Term::Abs(0, Box::new(Term::Var(1)))));

    assert_eq!("\\1. \\0. 1", fst.format());
}

#[test]
fn format_app_to_abs_in_abs() {
    let term = Term::from_str("\\1. 1 \\0. 0");

    assert_eq!(true, term.is_ok());
    assert_eq!("\\1. 1 \\0. 0", term.unwrap().format());
}

#[test]
fn format_application_to_omega() {
    let fst = Term::Abs(1, Box::new(Term::Abs(0, Box::new(Term::Var(1)))));
    let id = Term::Abs(0, Box::new(Term::Var(0)));
    let omega = Term::Abs(0, Box::new(Term::App(Box::new(Term::Var(0)), Box::new(Term::Var(0)))));
    let big_omega = Term::App(Box::new(omega.clone()), Box::new(omega));
    let term = Term::App(Box::new(Term::App(Box::new(fst), Box::new(id.clone()))), Box::new(big_omega));

    assert_eq!("(\\1. \\0. 1) (\\0. 0) ((\\0. 0 0) \\0. 0 0)", term.format());
}

#[test]
fn format_app_in_abs_four_times() {
    let term = Term::from_str("\\4. \\3. \\2. \\1. 1 2 3 4");

    assert_eq!(true, term.is_ok());
    assert_eq!("\\4. \\3. \\2. \\1. 1 2 3 4", term.unwrap().format());
}

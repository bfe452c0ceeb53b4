use std::str::FromStr;

use bred::Term;

#[test]
fn from_str_var() {
    let term = Term::from_str("0");

    assert_eq!(true, term.is_ok());
    assert_eq!(Term::Var(0), Term::from_str("0").unwrap())
}

#[test]
fn from_str_id() {
    let term = Term::from_str("\\0.0");
    let id = Term::Abs(0, Box::new(Term::Var(0)));

    assert_eq!(true, term.is_ok());
    assert_eq!(id, term.unwrap())
}

#[test]
fn from_str_id_whitespaced() {
    let term = Term::from_str("\\0. 0");
    let id = Term::Abs(0, Box::new(Term::Var(0)));

    assert_eq!(true, term.is_ok());
    assert_eq!(id, term.unwrap())
}

#[test]
fn from_str_fst() {
    let term = Term::from_str("\\1.\\0.1");
    let fst = Term::Abs(1, Box::new(Term::Abs(0, Box::new(Term::Var(1)))));

    assert_eq!(true, term.is_ok());
    assert_eq!(fst, term.unwrap())
}

#[test]
fn from_str_fst_whitespaced() {
    let term = Term::from_str("\\1. \\0. 1");
    let fst = Term::Abs(1, Box::new(Term::Abs(0, Box::new(Term::Var(1)))));

    assert_eq!(true, term.is_ok());
    assert_eq!(fst, term.unwrap())
}

#[test]
fn from_str_omega_redundant_parentheses() {
    let fst = Term::Abs(1, Box::new(Term::Abs(0, Box::new(Term::Var(1)))));
    let id = Term::Abs(0, Box::new(Term::Var(0)));
    let omega = Term::Abs(0, Box::new(Term::App(Box::new(Term::Var(0)), Box::new(Term::Var(0)))));
    let big_omega = Term::App(Box::new(omega.clone()), Box::new(omega));
    let term = Term::App(Box::new(Term::App(Box::new(fst), Box::new(id.clone()))), Box::new(big_omega));
    let converted = Term::from_str("((\\1.\\0.1) (\\0.0)) ((\\0.0 0) (\\0.0 0))");

    assert_eq!(true, converted.is_ok());
    assert_eq!(term, converted.unwrap());
}

#[test]
fn from_str_omega() {
    let fst = Term::Abs(1, Box::new(Term::Abs(0, Box::new(Term::Var(1)))));
    let id = Term::Abs(0, Box::new(Term::Var(0)));
    let omega = Term::Abs(0, Box::new(Term::App(Box::new(Term::Var(0)), Box::new(Term::Var(0)))));
    let big_omega = Term::App(Box::new(omega.clone()), Box::new(omega));
    let term = Term::App(Box::new(Term::App(Box::new(fst), Box::new(id.clone()))), Box::new(big_omega));
    let converted = Term::from_str("(\\1. \\0. 1) (\\0. 0) ((\\0. 0 0) \\0. 0 0)");

    assert_eq!(true, converted.is_ok());
    assert_eq!(term, converted.unwrap());
}

#[test]
fn from_str_abs_in_abs_without_parentheses() {
    let id = Term::Abs(0, Box::new(Term::Var(0)));
    let term = Term::Abs(1, Box::new(Term::App(Box::new(Term::Var(1)), Box::new(id))));
    let converted = Term::from_str("\\1. 1 \\0. 0");

    assert_eq!(true, converted.is_ok());
    assert_eq!(term, converted.unwrap());
}

#[test]
fn from_str_app_three_times() {
    let term = Term::Abs(0, Box::new(Term::App(Box::new(Term::App(Box::new(Term::Var(0)), Box::new(Term::Var(0)))), Box::new(Term::Var(0)))));
    let converted = Term::from_str("\\0. 0 0 0");

    assert_eq!(true, converted.is_ok());
    assert_eq!(term, converted.unwrap());
}

#[test]
fn from_str_app_four_times() {
    let term = Term::Abs(0, Box::new(Term::App(Box::new(Term::App(Box::new(Term::App(Box::new(Term::Var(0)), Box::new(Term::Var(0)))), Box::new(Term::Var(0)))), Box::new(Term::Var(0)))));
    let converted = Term::from_str("\\0. 0 0 0 0");

    assert_eq!(true, converted.is_ok());
    assert_eq!(term, converted.unwrap());
}

#[test]
fn from_str_abs_app_four_times() {
    let term = Term::Abs(
        4, Box::new(Term::Abs(
            3, Box::new(Term::Abs(
                2, Box::new(Term::Abs(
                    1, Box::new(Term::App(
                        Box::new(Term::App(
                            Box::new(Term::App(
                                Box::new(Term::Var(1)), Box::new(Term::Var(2)),
                            )), Box::new(Term::Var(3)),
                        )), Box::new(Term::Var(4)),
                    )),
                )),
            )),
        )),
    );
    let converted = Term::from_str("\\4. \\3. \\2. \\1. 1 2 3 4");

    assert_eq!(true, converted.is_ok());
    assert_eq!(term, converted.unwrap());
}

#[test]
fn from_str_outer_parentheses() {
    let id = Term::Abs(0, Box::new(Term::Var(0)));
    let converted = Term::from_str("(\\0. 0)");

    assert_eq!(true, converted.is_ok());
    assert_eq!(id, converted.unwrap());
}

#[test]
fn from_str_many_outer_parentheses() {
    let id = Term::Abs(0, Box::new(Term::Var(0)));
    let converted = Term::from_str("((\\0. 0))");

    assert_eq!(true, converted.is_ok());
    assert_eq!(id, converted.unwrap());
}

#[test]
fn from_str_redundant_parentheses() {
    let id = Term::Abs(0, Box::new(Term::Var(0)));
    let converted = Term::from_str("\\0. (0)");

    assert_eq!(true, converted.is_ok());
    assert_eq!(id, converted.unwrap());
}

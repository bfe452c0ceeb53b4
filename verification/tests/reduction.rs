use bred::normal_form;
use bred::Strategy;
use bred::Term;

#[test]
fn test_reduce_var_normal() {
    let var = Term::Var(0);
    assert_eq!(var, normal_form(&var, Strategy::Normal));
}

#[test]
fn test_reduce_var_applicative() {
    let var = Term::Var(0);
    assert_eq!(var, normal_form(&var, Strategy::Applicative));
}

#[test]
fn test_reduce_id_normal() {
    let id = Term::Abs(0, Box::new(Term::Var(0)));
    assert_eq!(id, normal_form(&id, Strategy::Normal));
}

#[test]
fn test_reduce_id_applicative() {
    let id = Term::Abs(0, Box::new(Term::Var(0)));
    assert_eq!(id, normal_form(&id, Strategy::Applicative));
}

#[test]
fn test_reduce_application_id_normal() {
    let term = Term::App(Box::new(Term::Abs(0, Box::new(Term::Var(0)))), Box::new(Term::Var(0)));
    assert_eq!(Term::Var(0), normal_form(&term, Strategy::Normal));
}

#[test]
fn test_reduce_application_id_applicative() {
    let term = Term::App(Box::new(Term::Abs(0, Box::new(Term::Var(0)))), Box::new(Term::Var(0)));
    assert_eq!(Term::Var(0), normal_form(&term, Strategy::Applicative));
}

#[test]
fn test_reduce_application_to_omega_normal() {
    let fst = Term::Abs(1, Box::new(Term::Abs(0, Box::new(Term::Var(1)))));
    let id = Term::Abs(0, Box::new(Term::Var(0)));
    let omega = Term::Abs(0, Box::new(Term::App(Box::new(Term::Var(0)), Box::new(Term::Var(0)))));
    let big_omega = Term::App(Box::new(omega.clone()), Box::new(omega));
    let term = Term::App(Box::new(Term::App(Box::new(fst), Box::new(id.clone()))), Box::new(big_omega));

    assert_eq!(id, normal_form(&term, Strategy::Normal));
}

#[test]
fn test_reduce_application_to_id() {
    let x = Term::Abs(1, Box::new(Term::Abs(0, Box::new(Term::Var(1)))));
    let id = Term::Abs(0, Box::new(Term::Var(0)));
    let term = Term::App(Box::new(x), Box::new(id));

    assert_eq!(Term::Abs(1, Box::new(Term::Abs(0, Box::new(Term::Var(0))))), normal_form(&term, Strategy::Normal));
}

#[test]
fn test_eq_id() {
    let id0 = Term::Abs(0, Box::new(Term::Var(0)));
    let id1 = Term::Abs(1, Box::new(Term::Var(1)));

    assert_eq!(id0, id1);
}

#[test]
fn reduce_var_normal() {
    let var = Term::Var(0);
    assert_eq!(var.clone(), var.normal_form(Strategy::Normal));
}

#[test]
fn reduce_var_applicative() {
    let var = Term::Var(0);
    assert_eq!(var.clone(), var.normal_form(Strategy::Applicative));
}

#[test]
fn reduce_id_normal() {
    let id = Term::Abs(0, Box::new(Term::Var(0)));
    assert_eq!(id.clone(), id.normal_form(Strategy::Normal));
}

#[test]
fn reduce_id_applicative() {
    let id = Term::Abs(0, Box::new(Term::Var(0)));
    assert_eq!(id.clone(), id.normal_form(Strategy::Applicative));
}

#[test]
fn reduce_application_id_normal() {
    let term = Term::App(Box::new(Term::Abs(0, Box::new(Term::Var(0)))), Box::new(Term::Var(0)));
    assert_eq!(Term::Var(0), term.normal_form(Strategy::Normal));
}

#[test]
fn reduce_application_id_applicative() {
    let term = Term::App(Box::new(Term::Abs(0, Box::new(Term::Var(0)))), Box::new(Term::Var(0)));
    assert_eq!(Term::Var(0), term.normal_form(Strategy::Applicative));
}

#[test]
fn reduce_application_to_omega_normal() {
    let fst = Term::Abs(1, Box::new(Term::Abs(0, Box::new(Term::Var(1)))));
    let id = Term::Abs(0, Box::new(Term::Var(0)));
    let omega = Term::Abs(0, Box::new(Term::App(Box::new(Term::Var(0)), Box::new(Term::Var(0)))));
    let big_omega = Term::App(Box::new(omega.clone()), Box::new(omega));
    let term = Term::App(Box::new(Term::App(Box::new(fst), Box::new(id.clone()))), Box::new(big_omega));

    assert_eq!(id, term.normal_form(Strategy::Normal));
}

#[test]
fn reduce_application_to_id() {
    let x = Term::Abs(1, Box::new(Term::Abs(0, Box::new(Term::Var(1)))));
    let id = Term::Abs(0, Box::new(Term::Var(0)));
    let term = Term::App(Box::new(x), Box::new(id));

    assert_eq!(Term::Abs(1, Box::new(Term::Abs(0, Box::new(Term::Var(0))))), term.normal_form(Strategy::Normal));
}

#[test]
fn eq_id() {
    let id0 = Term::Abs(0, Box::new(Term::Var(0)));
    let id1 = Term::Abs(1, Box::new(Term::Var(1)));

    assert_eq!(id0, id1);
}

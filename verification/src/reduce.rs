//! Single-step beta-reduction under a strategy, and normalization.
//!
//! One step rewrites the single redex that the strategy selects:
//! normal order works on the function of an application first and falls
//! back to the argument, applicative order works on the argument first
//! and never reduces inside a non-abstraction function position. A term
//! with no redex under the strategy is a normal form; normalization
//! repeats steps until it reaches one.

use vstd::prelude::*;

use crate::subst::subst_ok;
use crate::subst::subst_spec;
use crate::term::Strategy;
use crate::term::Term;
use crate::term::TermSpec;

verus! {

/// What one reduction step returns, or `None` on an irreducible term.
pub open spec fn step_spec(t: TermSpec, s: Strategy) -> Option<TermSpec>
    decreases t,
{
    match t {
        TermSpec::Var(_) => None,
        TermSpec::Abs(l, b) => match step_spec(*b, s) {
            Some(b2) => Some(TermSpec::Abs(l, Box::new(b2))),
            None => None,
        },
        TermSpec::App(f, a) => match s {
            Strategy::Normal => match step_spec(*f, s) {
                Some(f2) => Some(TermSpec::App(Box::new(f2), a)),
                None => match *f {
                    TermSpec::Abs(_, b) => Some(subst_spec(0, *a, *b)),
                    _ => match step_spec(*a, s) {
                        Some(a2) => Some(TermSpec::App(f, Box::new(a2))),
                        None => None,
                    },
                },
            },
            Strategy::Applicative => match step_spec(*a, s) {
                Some(a2) => Some(TermSpec::App(f, Box::new(a2))),
                None => match *f {
                    TermSpec::Abs(_, b) => Some(subst_spec(0, *a, *b)),
                    _ => None,
                },
            },
        },
    }
}

/// The term has no redex under the strategy.
pub open spec fn is_normal(t: TermSpec, s: Strategy) -> bool {
    step_spec(t, s) is None
}

/// The indices that one reduction step computes stay within `u32`.
pub open spec fn step_ok(t: TermSpec, s: Strategy) -> bool
    decreases t,
{
    match t {
        TermSpec::Var(_) => true,
        TermSpec::Abs(l, b) => step_ok(*b, s),
        TermSpec::App(f, a) => match s {
            Strategy::Normal => step_ok(*f, s) && (if step_spec(*f, s) is Some {
                true
            } else {
                match *f {
                    TermSpec::Abs(_, b) => subst_ok(0, *a, *b),
                    _ => step_ok(*a, s),
                }
            }),
            Strategy::Applicative => step_ok(*a, s) && (if step_spec(*a, s) is Some {
                true
            } else {
                match *f {
                    TermSpec::Abs(_, b) => subst_ok(0, *a, *b),
                    _ => true,
                }
            }),
        },
    }
}

/// The beta rule: an abstraction applied to an argument steps to the body
/// with the argument substituted for index `0`, under either strategy —
/// under normal order once the abstraction itself has no step, and under
/// applicative order once the argument has no step, since each strategy
/// first looks for such a step and rewraps it instead.
pub proof fn lemma_beta_step(l: nat, body: TermSpec, arg: TermSpec, s: Strategy)
    requires
        s == Strategy::Normal ==> is_normal(TermSpec::Abs(l, Box::new(body)), s),
        s == Strategy::Applicative ==> is_normal(arg, s),
    ensures
        step_spec(TermSpec::App(Box::new(TermSpec::Abs(l, Box::new(body))), Box::new(arg)), s)
            == Some(subst_spec(0, arg, body)),
{
}

impl Term {
    /// At most one beta-reduction step under the strategy; `None` means
    /// the term is a normal form.
    pub(crate) fn reduce(&self, strategy: Strategy) -> (r: Option<Term>)
        requires
            step_ok(self@, strategy),
        ensures
            match r {
                Some(t2) => step_spec(self@, strategy) == Some(t2@),
                None => is_normal(self@, strategy),
            },
        decreases self,
    {
        match self {
            Term::Var(_) => None,
            Term::Abs(l, b) => match b.reduce(strategy) {
                Some(b2) => Some(Term::Abs(*l, Box::new(b2))),
                None => None,
            },
            Term::App(f, a) => match strategy {
                Strategy::Normal => match f.reduce(strategy) {
                    Some(f2) => Some(Term::App(Box::new(f2), Box::new(a.duplicate()))),
                    None => if let Term::Abs(_, b) = &**f {
                        Some(b.substitute(0, a))
                    } else {
                        match a.reduce(strategy) {
                            Some(a2) => Some(Term::App(Box::new(f.duplicate()), Box::new(a2))),
                            None => None,
                        }
                    },
                },
                Strategy::Applicative => match a.reduce(strategy) {
                    Some(a2) => Some(Term::App(Box::new(f.duplicate()), Box::new(a2))),
                    None => if let Term::Abs(_, b) = &**f {
                        Some(b.substitute(0, a))
                    } else {
                        None
                    },
                },
            },
        }
    }
}

} // verus!

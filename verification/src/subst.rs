//! Shifting and capture-avoiding substitution.
//!
//! `shift` raises every free variable (index at least the cutoff) by a
//! distance, leaving bound variables alone; the cutoff grows by one under
//! each binder. `substitute` replaces every variable that names a given
//! positional index by a replacement term, shifting the replacement by one
//! each time it is pushed under a binder so that its free variables keep
//! referring to the same binders.

use vstd::prelude::*;

use crate::term::Term;
use crate::term::TermSpec;

verus! {

/// What `shift` means: every variable with index at least `c` is raised
/// by `d`; descending under a binder raises the cutoff.
pub open spec fn shift_spec(d: nat, c: nat, t: TermSpec) -> TermSpec
    decreases t,
{
    match t {
        TermSpec::App(f, a) => TermSpec::App(
            Box::new(shift_spec(d, c, *f)),
            Box::new(shift_spec(d, c, *a)),
        ),
        TermSpec::Abs(l, b) => TermSpec::Abs(l, Box::new(shift_spec(d, c + 1, *b))),
        TermSpec::Var(v) => if v < c {
            TermSpec::Var(v)
        } else {
            TermSpec::Var((v + d) as nat)
        },
    }
}

/// The raised indices and cutoffs that `shift` computes stay within `u32`.
pub open spec fn shift_ok(d: nat, c: nat, t: TermSpec) -> bool
    decreases t,
{
    match t {
        TermSpec::App(f, a) => shift_ok(d, c, *f) && shift_ok(d, c, *a),
        TermSpec::Abs(l, b) => c < u32::MAX && shift_ok(d, c + 1, *b),
        TermSpec::Var(v) => v < c || v + d <= u32::MAX,
    }
}

/// What `substitute` means: variables naming index `x` become `r`; under a
/// binder the index grows by one and the replacement is shifted by one.
pub open spec fn subst_spec(x: nat, r: TermSpec, t: TermSpec) -> TermSpec
    decreases t,
{
    match t {
        TermSpec::App(f, a) => TermSpec::App(
            Box::new(subst_spec(x, r, *f)),
            Box::new(subst_spec(x, r, *a)),
        ),
        TermSpec::Abs(l, b) => TermSpec::Abs(
            l,
            Box::new(subst_spec(x + 1, shift_spec(1, 0, r), *b)),
        ),
        TermSpec::Var(v) => if v == x {
            r
        } else {
            TermSpec::Var(v)
        },
    }
}

/// The indices that `substitute` computes stay within `u32`.
pub open spec fn subst_ok(x: nat, r: TermSpec, t: TermSpec) -> bool
    decreases t,
{
    match t {
        TermSpec::App(f, a) => subst_ok(x, r, *f) && subst_ok(x, r, *a),
        TermSpec::Abs(l, b) => x < u32::MAX && shift_ok(1, 0, r) && subst_ok(
            x + 1,
            shift_spec(1, 0, r),
            *b,
        ),
        TermSpec::Var(v) => true,
    }
}

impl Term {
    /// A copy of the term in which every free variable, relative to the
    /// cutoff `c`, has its index raised by `d`.
    pub(crate) fn shift(&self, d: u32, c: u32) -> (r: Term)
        requires
            shift_ok(d as nat, c as nat, self@),
        ensures
            r@ == shift_spec(d as nat, c as nat, self@),
        decreases self,
    {
        match self {
            Term::App(f, a) => Term::App(Box::new(f.shift(d, c)), Box::new(a.shift(d, c))),
            Term::Abs(l, b) => Term::Abs(*l, Box::new(b.shift(d, c + 1))),
            Term::Var(v) => if *v < c {
                Term::Var(*v)
            } else {
                Term::Var(*v + d)
            },
        }
    }

    /// A copy of the term in which every variable naming the positional
    /// index `x` is replaced by a copy of `arg`, adjusted for the binder
    /// depth at each occurrence.
    pub(crate) fn substitute(&self, x: u32, arg: &Term) -> (r: Term)
        requires
            subst_ok(x as nat, arg@, self@),
        ensures
            r@ == subst_spec(x as nat, arg@, self@),
        decreases self,
    {
        match self {
            Term::App(f, a) => Term::App(
                Box::new(f.substitute(x, arg)),
                Box::new(a.substitute(x, arg)),
            ),
            Term::Abs(l, b) => Term::Abs(*l, Box::new(b.substitute(x + 1, &arg.shift(1, 0)))),
            Term::Var(v) => if *v == x {
                arg.duplicate()
            } else {
                Term::Var(*v)
            },
        }
    }
}

} // verus!

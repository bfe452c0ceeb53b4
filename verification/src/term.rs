//! The term model: a lambda term is a variable, an abstraction or an
//! application. A variable carries a positional index: counting abstraction
//! boundaries outward from the variable, `0` names the nearest enclosing
//! binder, `1` the next one, and an index with no matching binder is a free
//! variable. An abstraction carries a numeric label that substitution,
//! shifting and reduction never consult; it only serves the concrete syntax.

use vstd::prelude::*;

verus! {

/// Mathematical image of a term, with unbounded indices and labels.
pub enum TermSpec {
    /// Function application.
    App(Box<TermSpec>, Box<TermSpec>),
    /// One binder (its cosmetic label) around a body.
    Abs(nat, Box<TermSpec>),
    /// A positional variable reference.
    Var(nat),
}

/// A lambda term. Each subterm is owned by its parent: terms form trees,
/// and every transformation builds new trees rather than sharing subtrees.
#[derive(Debug)]
pub enum Term {
    /// Function application: `App(function, argument)`.
    App(Box<Term>, Box<Term>),
    /// Abstraction: `Abs(label, body)` introduces one binder around `body`.
    Abs(u32, Box<Term>),
    /// Variable: `Var(index)`, a positional reference.
    Var(u32),
}

/// The strategy a reduction step follows on an application: normal order
/// works on the function first, applicative order on the argument.
#[derive(Clone, Copy, PartialEq, Eq, Structural)]
pub enum Strategy {
    Normal,
    Applicative,
}

/// The image of a term, one node at a time.
pub open spec fn image_of(t: Term) -> TermSpec
    decreases t,
{
    match t {
        Term::App(f, a) => TermSpec::App(Box::new(image_of(*f)), Box::new(image_of(*a))),
        Term::Abs(l, b) => TermSpec::Abs(l as nat, Box::new(image_of(*b))),
        Term::Var(v) => TermSpec::Var(v as nat),
    }
}

impl View for Term {
    type V = TermSpec;

    open spec fn view(&self) -> TermSpec {
        image_of(*self)
    }
}

/// Every label and index of the image fits the machine representation.
pub open spec fn fits(t: TermSpec) -> bool
    decreases t,
{
    match t {
        TermSpec::App(f, a) => fits(*f) && fits(*a),
        TermSpec::Abs(l, b) => l <= u32::MAX && fits(*b),
        TermSpec::Var(v) => v <= u32::MAX,
    }
}

impl Term {
    /// A term's view always fits the machine representation.
    pub proof fn lemma_view_fits(t: &Term)
        ensures
            fits(t@),
        decreases t,
    {
        match t {
            Term::App(f, a) => {
                Term::lemma_view_fits(f);
                Term::lemma_view_fits(a);
            },
            Term::Abs(_, b) => {
                Term::lemma_view_fits(b);
            },
            Term::Var(_) => {},
        }
    }

    /// A deep copy: a fresh tree with the same image, sharing nothing
    /// with the original.
    pub fn duplicate(&self) -> (r: Term)
        ensures
            r@ == self@,
        decreases self,
    {
        match self {
            Term::App(f, a) => Term::App(Box::new(f.duplicate()), Box::new(a.duplicate())),
            Term::Abs(l, b) => Term::Abs(*l, Box::new(b.duplicate())),
            Term::Var(v) => Term::Var(*v),
        }
    }
}

impl Clone for Term {
    /// Cloning is a deep copy: the clone has the same image.
    fn clone(&self) -> (r: Term)
        ensures
            r@ == self@,
    {
        self.duplicate()
    }
}

} // verus!

//! Alpha-equivalence: equality of terms up to consistent renaming of
//! bound variables.
//!
//! Where reduction reads a variable positionally, equality must compare
//! the binding structure that the concrete syntax denotes: a variable
//! names the innermost enclosing abstraction whose label equals its
//! number, or, where no enclosing abstraction carries that label, stays
//! free under its number. Two terms are equal when matching variables
//! name binders at the same depth, and free variables carry the same
//! number. Under this reading `\0.0` equals `\1.1` (each body names its
//! own binder) while `\0.0` differs from `\1.0` (one body names its
//! binder, the other a free variable), and renaming every binder of a
//! term to fresh distinct labels never changes the term's meaning.

use vstd::prelude::*;

use crate::term::Term;
use crate::term::TermSpec;

verus! {

/// The depth of the innermost enclosing binder labelled `v`, counted
/// from the inside (the environment's last entry is the nearest binder),
/// or `-1` where no enclosing binder carries that label.
pub open spec fn binder_level(e: Seq<nat>, v: nat) -> int
    decreases e.len(),
{
    if e.len() == 0 {
        -1
    } else if e.last() == v {
        0
    } else {
        let r = binder_level(e.drop_last(), v);
        if r == -1 {
            -1
        } else {
            r + 1
        }
    }
}

/// Alpha-equivalence of two terms under the stacks of binder labels
/// enclosing each.
pub open spec fn alpha_eq_at(t1: TermSpec, t2: TermSpec, e1: Seq<nat>, e2: Seq<nat>) -> bool
    decreases t1,
{
    match (t1, t2) {
        (TermSpec::Var(v1), TermSpec::Var(v2)) => binder_level(e1, v1) == binder_level(e2, v2)
            && (binder_level(e1, v1) == -1 ==> v1 == v2),
        (TermSpec::Abs(l1, b1), TermSpec::Abs(l2, b2)) => alpha_eq_at(
            *b1,
            *b2,
            e1.push(l1),
            e2.push(l2),
        ),
        (TermSpec::App(f1, a1), TermSpec::App(f2, a2)) => alpha_eq_at(*f1, *f2, e1, e2)
            && alpha_eq_at(*a1, *a2, e1, e2),
        _ => false,
    }
}

/// Alpha-equivalence of two closed-context terms.
pub open spec fn alpha_eq(t1: TermSpec, t2: TermSpec) -> bool {
    alpha_eq_at(t1, t2, Seq::empty(), Seq::empty())
}

/// Alpha-equivalence is reflexive under matching environments.
pub proof fn lemma_alpha_refl(t: TermSpec, e: Seq<nat>)
    ensures
        alpha_eq_at(t, t, e, e),
    decreases t,
{
    match t {
        TermSpec::Var(_) => {},
        TermSpec::Abs(l, b) => {
            lemma_alpha_refl(*b, e.push(l));
        },
        TermSpec::App(f, a) => {
            lemma_alpha_refl(*f, e);
            lemma_alpha_refl(*a, e);
        },
    }
}

/// A level is `-1` or a depth; nothing below `-1` arises.
proof fn lemma_level_range(e: Seq<nat>, v: nat)
    ensures
        binder_level(e, v) >= -1,
    decreases e.len(),
{
    if e.len() > 0 && e.last() != v {
        lemma_level_range(e.drop_last(), v);
    }
}

/// A label at depth `i` from the inside, with no nearer binder carrying
/// the label, fixes the level.
proof fn lemma_level_found(e: Seq<nat>, v: nat, i: nat)
    requires
        i < e.len(),
        e[e.len() - 1 - i] == v,
        forall|j: nat| j < i ==> #[trigger] e[e.len() - 1 - j] != v,
    ensures
        binder_level(e, v) == i,
    decreases i,
{
    if i == 0 {
    } else {
        assert(e.last() != v) by {
            assert(e[e.len() - 1 - 0] != v);
        }
        let d = e.drop_last();
        assert(d[d.len() - 1 - (i - 1)] == v);
        assert forall|j: nat| j < i - 1 implies #[trigger] d[d.len() - 1 - j] != v by {
            assert(e[e.len() - 1 - (j + 1)] != v);
        }
        lemma_level_found(d, v, (i - 1) as nat);
    }
}

/// A label that no entry carries has no level.
proof fn lemma_level_missing(e: Seq<nat>, v: nat)
    requires
        forall|j: nat| j < e.len() ==> #[trigger] e[j as int] != v,
    ensures
        binder_level(e, v) == -1,
    decreases e.len(),
{
    if e.len() > 0 {
        lemma_level_missing(e.drop_last(), v);
    }
}

/// The number occurs somewhere in the term, as a variable or as a
/// binder label.
pub open spec fn mentions(n: nat, t: TermSpec) -> bool
    decreases t,
{
    match t {
        TermSpec::Var(v) => v == n,
        TermSpec::Abs(l, b) => l == n || mentions(n, *b),
        TermSpec::App(f, a) => mentions(n, *f) || mentions(n, *a),
    }
}

/// The term with every binder label, and every variable bound by one of
/// the term's own binders under the enclosing labels `e`, renamed
/// through `f`; free variables keep their numbers.
pub open spec fn relabel_at(t: TermSpec, f: spec_fn(nat) -> nat, e: Seq<nat>) -> TermSpec
    decreases t,
{
    match t {
        TermSpec::Var(v) => if binder_level(e, v) >= 0 {
            TermSpec::Var(f(v))
        } else {
            TermSpec::Var(v)
        },
        TermSpec::Abs(l, b) => TermSpec::Abs(f(l), Box::new(relabel_at(*b, f, e.push(l)))),
        TermSpec::App(fu, a) => TermSpec::App(
            Box::new(relabel_at(*fu, f, e)),
            Box::new(relabel_at(*a, f, e)),
        ),
    }
}

/// The term with every binder renamed through `f`, bound variables
/// following their binders.
pub open spec fn relabel(t: TermSpec, f: spec_fn(nat) -> nat) -> TermSpec {
    relabel_at(t, f, Seq::empty())
}

/// An injective renaming keeps every level: the image of a label sits at
/// the depth the label sat at.
proof fn lemma_level_map(e: Seq<nat>, f: spec_fn(nat) -> nat, v: nat)
    requires
        forall|x: nat, y: nat| #[trigger] f(x) == #[trigger] f(y) ==> x == y,
    ensures
        binder_level(e.map_values(f), f(v)) == binder_level(e, v),
    decreases e.len(),
{
    if e.len() > 0 {
        assert(e.map_values(f).last() == f(e.last()));
        assert(e.map_values(f).drop_last() =~= e.drop_last().map_values(f));
        lemma_level_map(e.drop_last(), f, v);
    }
}

/// Alpha-invariance of relabelling, generalized over the enclosing
/// binders: a term and its renaming stay equivalent under environments
/// that are renamings of each other, whenever the renaming is injective
/// and produces only labels the term does not mention.
proof fn lemma_alpha_relabel_at(t: TermSpec, f: spec_fn(nat) -> nat, e: Seq<nat>)
    requires
        forall|x: nat, y: nat| #[trigger] f(x) == #[trigger] f(y) ==> x == y,
        forall|x: nat| !mentions(#[trigger] f(x), t),
    ensures
        alpha_eq_at(t, relabel_at(t, f, e), e, e.map_values(f)),
    decreases t,
{
    match t {
        TermSpec::Var(v) => {
            lemma_level_range(e, v);
            if binder_level(e, v) >= 0 {
                lemma_level_map(e, f, v);
            } else {
                assert forall|j: nat| j < e.map_values(f).len() implies #[trigger] e.map_values(
                    f,
                )[j as int] != v by {
                    assert(e.map_values(f)[j as int] == f(e[j as int]));
                    assert(!mentions(f(e[j as int]), t));
                }
                lemma_level_missing(e.map_values(f), v);
            }
        },
        TermSpec::Abs(l, b) => {
            assert(e.push(l).map_values(f) =~= e.map_values(f).push(f(l)));
            assert(forall|x: nat| !mentions(#[trigger] f(x), *b));
            lemma_alpha_relabel_at(*b, f, e.push(l));
        },
        TermSpec::App(fu, a) => {
            assert(forall|x: nat| !mentions(#[trigger] f(x), *fu));
            assert(forall|x: nat| !mentions(#[trigger] f(x), *a));
            lemma_alpha_relabel_at(*fu, f, e);
            lemma_alpha_relabel_at(*a, f, e);
        },
    }
}

/// Alpha-invariance: renaming every abstraction label of a term through
/// an injective map onto fresh numbers — numbers the term nowhere
/// mentions — with each bound variable following its own binder, yields
/// an equal term.
pub proof fn lemma_alpha_relabel(t: TermSpec, f: spec_fn(nat) -> nat)
    requires
        forall|x: nat, y: nat| #[trigger] f(x) == #[trigger] f(y) ==> x == y,
        forall|x: nat| !mentions(#[trigger] f(x), t),
    ensures
        alpha_eq(t, relabel(t, f)),
{
    lemma_alpha_relabel_at(t, f, Seq::empty());
    assert(Seq::<nat>::empty().map_values(f) =~= Seq::<nat>::empty());
}

/// The label environments as the executable checker keeps them.
pub open spec fn env_view(e: Seq<u32>) -> Seq<nat> {
    e.map_values(|x: u32| x as nat)
}

/// The depth of the innermost entry equal to `v`, from the end of the
/// stack, or `None` where the stack has no such entry.
fn binder_level_exec(e: &Vec<u32>, v: u32) -> (r: Option<usize>)
    ensures
        match r {
            Some(i) => binder_level(env_view(e@), v as nat) == i as int,
            None => binder_level(env_view(e@), v as nat) == -1,
        },
{
    let n = e.len();
    let mut i: usize = 0;
    while i < n
        invariant
            i <= n,
            n == e@.len(),
            forall|j: nat| j < i ==> #[trigger] env_view(e@)[e@.len() - 1 - j] != v as nat,
        decreases n - i,
    {
        if e[n - 1 - i] == v {
            proof {
                lemma_level_found(env_view(e@), v as nat, i as nat);
            }
            return Some(i);
        }
        assert(env_view(e@)[e@.len() - 1 - i] != v as nat);
        i = i + 1;
    }
    proof {
        assert forall|j: nat| j < env_view(e@).len() implies env_view(e@)[j as int]
            != v as nat by {
            assert(env_view(e@)[e@.len() - 1 - (e@.len() - 1 - j)] != v as nat);
        }
        lemma_level_missing(env_view(e@), v as nat);
    }
    None
}

/// The alpha-equivalence checker, carrying the enclosing binder labels
/// of each side; the environments come back as they went in.
fn alpha_eq_rec(t1: &Term, t2: &Term, e1: &mut Vec<u32>, e2: &mut Vec<u32>) -> (r: bool)
    ensures
        r == alpha_eq_at(t1@, t2@, env_view(old(e1)@), env_view(old(e2)@)),
        final(e1)@ == old(e1)@,
        final(e2)@ == old(e2)@,
    decreases t1,
{
    match (t1, t2) {
        (Term::Var(v1), Term::Var(v2)) => {
            let l1 = binder_level_exec(e1, *v1);
            let l2 = binder_level_exec(e2, *v2);
            match (l1, l2) {
                (Some(i), Some(j)) => i == j,
                (None, None) => *v1 == *v2,
                _ => false,
            }
        },
        (Term::Abs(l1, b1), Term::Abs(l2, b2)) => {
            e1.push(*l1);
            e2.push(*l2);
            proof {
                assert(env_view(e1@) =~= env_view(old(e1)@).push(*l1 as nat));
                assert(env_view(e2@) =~= env_view(old(e2)@).push(*l2 as nat));
            }
            let r = alpha_eq_rec(b1, b2, e1, e2);
            e1.pop();
            e2.pop();
            proof {
                assert(e1@ =~= old(e1)@);
                assert(e2@ =~= old(e2)@);
            }
            r
        },
        (Term::App(f1, a1), Term::App(f2, a2)) => {
            let rf = alpha_eq_rec(f1, f2, e1, e2);
            if rf {
                alpha_eq_rec(a1, a2, e1, e2)
            } else {
                false
            }
        },
        _ => false,
    }
}

/// Whether two terms are alpha-equivalent: equal up to consistent
/// renaming of bound variables, with labels of abstractions otherwise
/// immaterial.
pub fn equals(a: &Term, b: &Term) -> (r: bool)
    ensures
        r == alpha_eq(a@, b@),
{
    let mut e1: Vec<u32> = Vec::new();
    let mut e2: Vec<u32> = Vec::new();
    proof {
        assert(env_view(e1@) =~= Seq::<nat>::empty());
        assert(env_view(e2@) =~= Seq::<nat>::empty());
    }
    alpha_eq_rec(a, b, &mut e1, &mut e2)
}

impl PartialEq for Term {
    /// `==` on terms is alpha-equivalence.
    fn eq(&self, other: &Term) -> (r: bool)
        ensures
            r == alpha_eq(self@, other@),
    {
        equals(self, other)
    }
}

impl vstd::std_specs::cmp::PartialEqSpecImpl for Term {
    open spec fn obeys_eq_spec() -> bool {
        true
    }

    open spec fn eq_spec(&self, other: &Term) -> bool {
        alpha_eq(self@, other@)
    }
}

} // verus!

//! Normalization: repeat single steps until the term is a normal form.
//!
//! The calculus is Turing-complete, so some terms never reach a normal
//! form; machine code, however, must show each loop terminating. The
//! executable normalizer therefore asks of its callers that the term has
//! a normal form under the chosen strategy (`normalizes`) and that every
//! index met along the reduction sequence stays within `u32`
//! (`chain_ok`); on a term without a normal form the loop, run outside
//! these obligations, simply never returns, as the calculus prescribes.

use vstd::prelude::*;

use crate::reduce::is_normal;
use crate::reduce::step_ok;
use crate::reduce::step_spec;
use crate::term::Strategy;
use crate::term::Term;
use crate::term::TermSpec;

verus! {

/// The term that `n` reduction steps reach, or `None` when a normal form
/// arrives in fewer than `n` steps.
pub open spec fn steps(t: TermSpec, s: Strategy, n: nat) -> Option<TermSpec>
    decreases n,
{
    if n == 0 {
        Some(t)
    } else {
        match step_spec(t, s) {
            Some(u) => steps(u, s, (n - 1) as nat),
            None => None,
        }
    }
}

/// `n` steps from `t` land exactly on a normal form.
pub open spec fn normal_at(t: TermSpec, s: Strategy, n: nat) -> bool {
    match steps(t, s, n) {
        Some(u) => is_normal(u, s),
        None => false,
    }
}

/// The term reaches a normal form under the strategy.
pub open spec fn normalizes(t: TermSpec, s: Strategy) -> bool {
    exists|n: nat| normal_at(t, s, n)
}

/// Some number of steps from `t` reaches `r`.
pub open spec fn reaches(t: TermSpec, s: Strategy, r: TermSpec) -> bool {
    exists|n: nat| steps(t, s, n) == Some(r)
}

/// Every term along the reduction sequence keeps its indices within `u32`.
pub open spec fn chain_ok(t: TermSpec, s: Strategy) -> bool {
    forall|n: nat| (#[trigger] steps(t, s, n)) matches Some(u) ==> step_ok(u, s)
}

/// The normal form that the term reaches, where one exists.
pub open spec fn normal_form_spec(t: TermSpec, s: Strategy) -> TermSpec {
    choose|r: TermSpec| reaches(t, s, r) && is_normal(r, s)
}

/// `n` steps reach a normal form and no fewer do.
pub open spec fn least_normal_at(t: TermSpec, s: Strategy, n: nat) -> bool {
    normal_at(t, s, n) && forall|m: nat| m < n ==> !normal_at(t, s, m)
}

/// How many steps the term is from its normal form.
pub open spec fn dist_to_normal(t: TermSpec, s: Strategy) -> nat {
    choose|n: nat| least_normal_at(t, s, n)
}

/// Step sequences compose: `m` steps followed by `k` steps are `m + k`
/// steps.
proof fn lemma_steps_compose(t: TermSpec, s: Strategy, m: nat, k: nat)
    ensures
        match steps(t, s, m) {
            Some(u) => steps(t, s, m + k) == steps(u, s, k),
            None => steps(t, s, m + k) is None,
        },
    decreases m,
{
    if m > 0 {
        match step_spec(t, s) {
            Some(u) => {
                lemma_steps_compose(u, s, (m - 1) as nat, k);
            },
            None => {},
        }
    }
}

/// A normal form takes no further step.
proof fn lemma_normal_stays(r: TermSpec, s: Strategy, k: nat)
    requires
        is_normal(r, s),
        k > 0,
    ensures
        steps(r, s, k) is None,
{
}

/// Reduction is deterministic, so the normal form reached is unique.
pub proof fn lemma_normal_unique(t: TermSpec, s: Strategy, r1: TermSpec, r2: TermSpec)
    requires
        reaches(t, s, r1),
        is_normal(r1, s),
        reaches(t, s, r2),
        is_normal(r2, s),
    ensures
        r1 == r2,
{
    let n1 = choose|n: nat| steps(t, s, n) == Some(r1);
    let n2 = choose|n: nat| steps(t, s, n) == Some(r2);
    if n1 <= n2 {
        lemma_steps_compose(t, s, n1, (n2 - n1) as nat);
        if n2 > n1 {
            lemma_normal_stays(r1, s, (n2 - n1) as nat);
        }
    } else {
        lemma_steps_compose(t, s, n2, (n1 - n2) as nat);
        lemma_normal_stays(r2, s, (n1 - n2) as nat);
    }
}

/// Wherever some step count reaches a normal form, a least one does.
proof fn lemma_least_exists(t: TermSpec, s: Strategy, n: nat)
    requires
        normal_at(t, s, n),
    ensures
        least_normal_at(t, s, dist_to_normal(t, s)),
    decreases n,
{
    if exists|m: nat| m < n && normal_at(t, s, m) {
        let m = choose|m: nat| m < n && normal_at(t, s, m);
        lemma_least_exists(t, s, m);
    } else {
        assert(least_normal_at(t, s, n));
        assert(exists|k: nat| least_normal_at(t, s, k));
    }
}

/// After one step toward the normal form, the remaining distance drops.
proof fn lemma_dist_decreases(t: TermSpec, s: Strategy, u: TermSpec)
    requires
        normalizes(t, s),
        step_spec(t, s) == Some(u),
    ensures
        normalizes(u, s),
        dist_to_normal(u, s) < dist_to_normal(t, s),
{
    let n = choose|n: nat| normal_at(t, s, n);
    lemma_least_exists(t, s, n);
    let d = dist_to_normal(t, s);
    assert(d > 0);
    assert(steps(t, s, d) == steps(u, s, (d - 1) as nat));
    assert(normal_at(u, s, (d - 1) as nat));
    lemma_least_exists(u, s, (d - 1) as nat);
}

/// One more step extends the sequence by one.
proof fn lemma_steps_snoc(t: TermSpec, s: Strategy, n: nat, u: TermSpec, v: TermSpec)
    requires
        steps(t, s, n) == Some(u),
        step_spec(u, s) == Some(v),
    ensures
        steps(t, s, n + 1) == Some(v),
{
    lemma_steps_compose(t, s, n, 1);
    assert(steps(v, s, 0) == Some(v));
    assert(steps(u, s, 1) == Some(v));
}

impl Term {
    /// Reduce the term until no step is possible, and return that normal
    /// form. Terms without a normal form under the strategy make this
    /// loop forever; the stated obligations name the terms on which a
    /// return, and so the contract, is owed.
    pub fn normal_form(self, strategy: Strategy) -> (r: Term)
        requires
            normalizes(self@, strategy),
            chain_ok(self@, strategy),
        ensures
            reaches(self@, strategy, r@),
            is_normal(r@, strategy),
            r@ == normal_form_spec(self@, strategy),
            normalizes(r@, strategy),
            chain_ok(r@, strategy),
    {
        let ghost t0 = self@;
        let ghost mut k: nat = 0;
        let mut cur = self;
        proof {
            assert(steps(t0, strategy, 0) == Some(cur@));
        }
        loop
            invariant
                t0 == self@,
                steps(t0, strategy, k) == Some(cur@),
                normalizes(t0, strategy),
                chain_ok(t0, strategy),
                normalizes(cur@, strategy),
            decreases dist_to_normal(cur@, strategy),
        {
            proof {
                assert(steps(t0, strategy, k) == Some(cur@));
                assert(step_ok(cur@, strategy));
            }
            match cur.reduce(strategy) {
                Some(t2) => {
                    proof {
                        lemma_steps_snoc(t0, strategy, k, cur@, t2@);
                        lemma_dist_decreases(cur@, strategy, t2@);
                        k = k + 1;
                    }
                    cur = t2;
                },
                None => {
                    proof {
                        assert(reaches(t0, strategy, cur@));
                        let w = normal_form_spec(t0, strategy);
                        assert(reaches(t0, strategy, w) && is_normal(w, strategy));
                        lemma_normal_unique(t0, strategy, cur@, w);
                        assert(forall|n: nat|
                            n > 0 ==> (#[trigger] steps(cur@, strategy, n)) is None) by {
                            assert forall|n: nat| n > 0 implies (#[trigger] steps(
                                cur@,
                                strategy,
                                n,
                            )) is None by {
                                lemma_normal_stays(cur@, strategy, n);
                            }
                        }
                        assert(steps(cur@, strategy, 0) == Some(cur@));
                        assert(chain_ok(cur@, strategy));
                    }
                    return cur;
                },
            }
        }
    }
}

/// The normal form of the term under the strategy, as a fresh tree; the
/// argument is left unchanged.
pub fn normal_form(term: &Term, strategy: Strategy) -> (r: Term)
    requires
        normalizes(term@, strategy),
        chain_ok(term@, strategy),
    ensures
        reaches(term@, strategy, r@),
        is_normal(r@, strategy),
        r@ == normal_form_spec(term@, strategy),
        normalizes(r@, strategy),
        chain_ok(r@, strategy),
{
    term.duplicate().normal_form(strategy)
}

/// Normalization is idempotent: the normal form of a normal form is that
/// term itself, under each strategy.
pub proof fn lemma_normal_form_idempotent(t: TermSpec, s: Strategy)
    requires
        normalizes(t, s),
    ensures
        normalizes(normal_form_spec(t, s), s),
        normal_form_spec(normal_form_spec(t, s), s) == normal_form_spec(t, s),
{
    let n = choose|n: nat| normal_at(t, s, n);
    match steps(t, s, n) {
        Some(u) => {
            assert(reaches(t, s, u));
            let w = normal_form_spec(t, s);
            assert(reaches(t, s, w) && is_normal(w, s));
            assert(steps(w, s, 0) == Some(w));
            assert(normal_at(w, s, 0));
            assert(reaches(w, s, w));
            let w2 = normal_form_spec(w, s);
            assert(reaches(w, s, w2) && is_normal(w2, s));
            lemma_normal_unique(w, s, w2, w);
        },
        None => {
            assert(false);
        },
    }
}

} // verus!

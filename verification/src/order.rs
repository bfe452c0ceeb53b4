//! A total order that key types bring along, stated as a strict
//! comparison with its laws, and an executable three-way comparison
//! that agrees with it.

use vstd::prelude::*;

verus! {

/// The outcome of comparing one key with another.
pub enum KeyCmp {
    /// The first key is strictly below the second.
    Below,
    /// The keys are equal.
    Same,
    /// The first key is strictly above the second.
    Above,
}

/// A strict total order on a key type. The laws make the order usable
/// for searching: no key sits below itself or below a key that sits
/// below it, any two keys are ordered or equal, and the order chains.
pub trait TotalOrder: Sized {
    /// The first key sits strictly below the second.
    spec fn lt(self, other: Self) -> bool;

    /// Below is one-way: a key below another differs from it, and the
    /// other does not sit below it in turn.
    proof fn lemma_strict(a: Self, b: Self)
        requires
            a.lt(b),
        ensures
            a != b,
            !b.lt(a),
    ;

    /// Any two keys are equal or ordered one way.
    proof fn lemma_connected(a: Self, b: Self)
        ensures
            a == b || a.lt(b) || b.lt(a),
    ;

    /// Below chains.
    proof fn lemma_transitive(a: Self, b: Self, c: Self)
        requires
            a.lt(b),
            b.lt(c),
        ensures
            a.lt(c),
    ;

    /// Compare two keys; the outcome names exactly where the first
    /// stands relative to the second.
    fn compare(&self, other: &Self) -> (c: KeyCmp)
        ensures
            match c {
                KeyCmp::Below => self.lt(*other),
                KeyCmp::Same => *self == *other,
                KeyCmp::Above => other.lt(*self),
            },
    ;
}

impl TotalOrder for i32 {
    open spec fn lt(self, other: i32) -> bool {
        self < other
    }

    proof fn lemma_strict(a: i32, b: i32) {
    }

    proof fn lemma_connected(a: i32, b: i32) {
    }

    proof fn lemma_transitive(a: i32, b: i32, c: i32) {
    }

    fn compare(&self, other: &i32) -> (c: KeyCmp) {
        if *self < *other {
            KeyCmp::Below
        } else if *self == *other {
            KeyCmp::Same
        } else {
            KeyCmp::Above
        }
    }
}

impl TotalOrder for usize {
    open spec fn lt(self, other: usize) -> bool {
        self < other
    }

    proof fn lemma_strict(a: usize, b: usize) {
    }

    proof fn lemma_connected(a: usize, b: usize) {
    }

    proof fn lemma_transitive(a: usize, b: usize, c: usize) {
    }

    fn compare(&self, other: &usize) -> (c: KeyCmp) {
        if *self < *other {
            KeyCmp::Below
        } else if *self == *other {
            KeyCmp::Same
        } else {
            KeyCmp::Above
        }
    }
}

} // verus!

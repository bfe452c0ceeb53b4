//! An ordered set: the ordered map with no payload, read as a `Set` in
//! contracts.

use vstd::prelude::*;

use crate::order::TotalOrder;
use crate::tree_map::TreeMap;

verus! {

/// An ordered container of distinct values over the ordered map.
pub struct TreeSet<T: TotalOrder> {
    map: TreeMap<T, ()>,
}

impl<T: TotalOrder> TreeSet<T> {
    /// The underlying map is well-formed.
    pub closed spec fn wf(self) -> bool {
        self.map.wf()
    }

    /// The set the tree holds.
    pub closed spec fn as_set(self) -> Set<T> {
        self.map@.dom()
    }

    /// An empty set.
    pub fn new() -> (r: TreeSet<T>)
        ensures
            r.wf(),
            r@ == Set::<T>::empty(),
    {
        let s = TreeSet { map: TreeMap::new() };
        proof {
            assert(s.map@.dom() =~= Set::<T>::empty());
        }
        s
    }

    /// Drop every value.
    pub fn clear(&mut self)
        ensures
            final(self).wf(),
            final(self)@ == Set::<T>::empty(),
    {
        self.map.clear();
        proof {
            assert(self.map@.dom() =~= Set::<T>::empty());
        }
    }

    /// Whether an equal value is present.
    pub fn contains(&self, value: &T) -> (r: bool)
        requires
            self.wf(),
        ensures
            r == self@.contains(*value),
    {
        self.map.contains_key(value)
    }

    /// The stored value equal to the one sought.
    pub fn get(&self, value: &T) -> (r: Option<&T>)
        requires
            self.wf(),
        ensures
            match r {
                Some(x) => self@.contains(*value) && *x == *value,
                None => !self@.contains(*value),
            },
    {
        match self.map.get_key_value(value) {
            Some((k, _)) => Some(k),
            None => None,
        }
    }

    /// Add the value; whether it was new. A stored equal value stays.
    pub fn insert(&mut self, value: T) -> (r: bool)
        requires
            old(self).wf(),
            old(self)@.len() < usize::MAX,
        ensures
            final(self).wf(),
            final(self)@ == old(self)@.insert(value),
            r == !old(self)@.contains(value),
    {
        let r = self.map.insert(value, ());
        proof {
            assert(self.map@.dom() =~= old(self)@.insert(value));
        }
        r.is_none()
    }

    /// Drop an equal value; whether one was present.
    pub fn remove(&mut self, value: &T) -> (r: bool)
        requires
            old(self).wf(),
        ensures
            final(self).wf(),
            final(self)@ == old(self)@.remove(*value),
            r == old(self)@.contains(*value),
    {
        let r = self.map.remove(value);
        proof {
            assert(self.map@.dom() =~= old(self)@.remove(*value));
        }
        r.is_some()
    }

    /// Drop an equal value; the stored value comes back.
    pub fn take(&mut self, value: &T) -> (r: Option<T>)
        requires
            old(self).wf(),
        ensures
            final(self).wf(),
            final(self)@ == old(self)@.remove(*value),
            match r {
                Some(x) => old(self)@.contains(*value) && x == *value,
                None => !old(self)@.contains(*value),
            },
    {
        let r = self.map.remove_entry(value);
        proof {
            assert(self.map@.dom() =~= old(self)@.remove(*value));
        }
        match r {
            Some((k, _)) => Some(k),
            None => None,
        }
    }

    /// The values in ascending order, one reference each: every one is
    /// present, every present value appears, and they strictly ascend.
    pub fn iter(&self) -> (r: Vec<&T>)
        requires
            self.wf(),
        ensures
            forall|i: int| 0 <= i < r@.len() ==> self@.contains(*(#[trigger] r@[i])),
            forall|x: T|
                self@.contains(x) ==> exists|i: int|
                    0 <= i < r@.len() && *(#[trigger] r@[i]) == x,
            forall|i: int, j: int|
                0 <= i < j < r@.len() ==> (*(#[trigger] r@[i])).lt(*(#[trigger] r@[j])),
    {
        let pairs = self.map.iter();
        let mut out: Vec<&T> = Vec::new();
        let mut idx: usize = 0;
        while idx < pairs.len()
            invariant
                idx <= pairs@.len(),
                out@.len() == idx,
                forall|i: int| 0 <= i < idx ==> out@[i] == (#[trigger] pairs@[i]).0,
            decreases pairs@.len() - idx,
        {
            let p = pairs[idx];
            out.push(p.0);
            idx = idx + 1;
        }
        proof {
            assert forall|i: int| 0 <= i < out@.len() implies self@.contains(
                *(#[trigger] out@[i]),
            ) by {
                assert(out@[i] == pairs@[i].0);
            }
            assert forall|i: int, j: int|
                0 <= i < j < out@.len() implies (*(#[trigger] out@[i])).lt(
                *(#[trigger] out@[j]),
            ) by {
                assert(out@[i] == pairs@[i].0);
                assert(out@[j] == pairs@[j].0);
            }
            assert forall|x: T| self@.contains(x) implies exists|i: int|
                0 <= i < out@.len() && *(#[trigger] out@[i]) == x by {
                let i = choose|i: int| 0 <= i < pairs@.len() && *(#[trigger] pairs@[i]).0 == x;
                assert(*out@[i] == x);
            }
        }
        out
    }

    /// How many values the set holds.
    pub fn len(&self) -> (r: usize)
        requires
            self.wf(),
        ensures
            r == self@.len(),
    {
        self.map.len()
    }

    /// Whether the set holds no value.
    pub fn is_empty(&self) -> (r: bool)
        requires
            self.wf(),
        ensures
            r == self@.is_empty(),
    {
        self.map.is_empty()
    }
}

impl<T: TotalOrder> View for TreeSet<T> {
    type V = Set<T>;

    open spec fn view(&self) -> Set<T> {
        self.as_set()
    }
}

} // verus!

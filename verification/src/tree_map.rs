//! An ordered map: an unbalanced binary search tree from keys with a
//! total order to values, read as a `Map` in contracts.

use vstd::prelude::*;
use vstd::set::axiom_set_insert_len;
use vstd::set::axiom_set_remove_len;

use crate::order::KeyCmp;
use crate::order::TotalOrder;

verus! {

broadcast use vstd::map_lib::group_map_union;

/// One node: a key, its value, and up to two subtrees.
struct TreeNode<K, V> {
    key: K,
    value: V,
    left: Option<Box<TreeNode<K, V>>>,
    right: Option<Box<TreeNode<K, V>>>,
}

/// An ordered key-value container over a binary search tree.
pub struct TreeMap<K: TotalOrder, V> {
    root: Option<Box<TreeNode<K, V>>>,
    length: usize,
}

impl<K: TotalOrder, V> TreeNode<K, V> {
    /// The entries a subtree holds.
    spec fn sub_map(sub: Option<Box<TreeNode<K, V>>>) -> Map<K, V>
        decreases sub,
    {
        match sub {
            None => Map::empty(),
            Some(node) => node.entries(),
        }
    }

    /// The entries below and at this node.
    spec fn entries(self) -> Map<K, V>
        decreases self,
    {
        Self::sub_map(self.left).union_prefer_right(Self::sub_map(self.right)).insert(
            self.key,
            self.value,
        )
    }

    /// The search-tree shape: keys on the left sit below the node's
    /// key, keys on the right above it, in every subtree.
    spec fn ordered(self) -> bool
        decreases self,
    {
        &&& forall|k: K| Self::sub_map(self.left).dom().contains(k) ==> #[trigger] k.lt(self.key)
        &&& forall|k: K| Self::sub_map(self.right).dom().contains(k) ==> #[trigger] self.key.lt(k)
        &&& match self.left {
            Some(node) => node.ordered(),
            None => true,
        }
        &&& match self.right {
            Some(node) => node.ordered(),
            None => true,
        }
    }

    /// The search-tree shape of a subtree.
    spec fn sub_ordered(sub: Option<Box<TreeNode<K, V>>>) -> bool {
        match sub {
            Some(node) => node.ordered(),
            None => true,
        }
    }

    /// Append one reference pair per entry of the subtree, in ascending
    /// key order, after what `out` already holds.
    fn sub_pairs<'a>(sub: &'a Option<Box<TreeNode<K, V>>>, out: &mut Vec<(&'a K, &'a V)>)
        requires
            Self::sub_ordered(*sub),
        ensures
            final(out)@.len() >= old(out)@.len(),
            forall|i: int| 0 <= i < old(out)@.len() ==> final(out)@[i] == old(out)@[i],
            forall|i: int|
                old(out)@.len() <= i < final(out)@.len() ==> Self::sub_map(*sub).dom().contains(
                    *(#[trigger] final(out)@[i]).0,
                ) && *final(out)@[i].1 == Self::sub_map(*sub)[*final(out)@[i].0],
            forall|k: K|
                Self::sub_map(*sub).dom().contains(k) ==> exists|i: int|
                    old(out)@.len() <= i < final(out)@.len() && *(#[trigger] final(out)@[i]).0
                        == k,
            forall|i: int, j: int|
                old(out)@.len() <= i < j < final(out)@.len() ==> (*(#[trigger] final(
                    out)@[i]).0).lt(*(#[trigger] final(out)@[j]).0),
        decreases sub,
    {
        match sub {
            None => {},
            Some(node) => {
                let ghost n0 = out@.len() as int;
                Self::sub_pairs(&node.left, out);
                let ghost n1 = out@.len() as int;
                let ghost mid = out@;
                out.push((&node.key, &node.value));
                let ghost n2 = out@.len() as int;
                Self::sub_pairs(&node.right, out);
                proof {
                    let res = out@;
                    let whole = Self::sub_map(*sub);
                    assert forall|i: int|
                        n0 <= i < res.len() implies whole.dom().contains(
                        *(#[trigger] res[i]).0,
                    ) && *res[i].1 == whole[*res[i].0] by {
                        if i < n1 {
                            let k = *res[i].0;
                            K::lemma_strict(k, node.key);
                            if Self::sub_map(node.right).dom().contains(k) {
                                K::lemma_strict(node.key, k);
                            }
                        } else if i == n1 {
                            assert(res[i] == mid.push((&node.key, &node.value))[i]);
                        } else {
                            let k = *res[i].0;
                            K::lemma_strict(node.key, k);
                        }
                    }
                    assert forall|k: K| whole.dom().contains(k) implies exists|i: int|
                        n0 <= i < res.len() && *(#[trigger] res[i]).0 == k by {
                        if Self::sub_map(node.left).dom().contains(k) {
                            let i = choose|i: int|
                                n0 <= i < n1 && *(#[trigger] mid[i]).0 == k;
                            assert(res[i] == mid[i]);
                            assert(*res[i].0 == k);
                        } else if k == node.key {
                            assert(res[n1] == mid.push((&node.key, &node.value))[n1]);
                            assert(*res[n1].0 == k);
                        } else {
                            assert(Self::sub_map(node.right).dom().contains(k));
                            let i = choose|i: int|
                                n2 <= i < res.len() && *(#[trigger] res[i]).0 == k;
                            assert(*res[i].0 == k);
                        }
                    }
                    assert forall|i: int, j: int|
                        n0 <= i < j < res.len() implies (*(#[trigger] res[i]).0).lt(
                        *(#[trigger] res[j]).0,
                    ) by {
                        let ki = *res[i].0;
                        let kj = *res[j].0;
                        if i < n1 {
                            assert(res[i] == mid[i]);
                            assert(Self::sub_map(node.left).dom().contains(ki));
                            if j < n1 {
                            } else if j == n1 {
                            } else {
                                K::lemma_transitive(ki, node.key, kj);
                            }
                        } else if i == n1 {
                            assert(res[i] == mid.push((&node.key, &node.value))[i]);
                        } else {
                        }
                    }
                }
            },
        }
    }

    /// Look a key up in a subtree.
    fn sub_get<'a>(sub: &'a Option<Box<TreeNode<K, V>>>, key: &K) -> (r: Option<(&'a K, &'a V)>)
        requires
            Self::sub_ordered(*sub),
        ensures
            match r {
                Some((k, v)) => Self::sub_map(*sub).dom().contains(*key) && *k == *key && *v
                    == Self::sub_map(*sub)[*key],
                None => !Self::sub_map(*sub).dom().contains(*key),
            },
        decreases sub,
    {
        match sub {
            None => None,
            Some(node) => {
                match key.compare(&node.key) {
                    KeyCmp::Same => Some((&node.key, &node.value)),
                    KeyCmp::Below => {
                        proof {
                            if Self::sub_map(node.right).dom().contains(*key) {
                                K::lemma_strict(*key, node.key);
                            }
                            K::lemma_strict(*key, node.key);
                        }
                        Self::sub_get(&node.left, key)
                    },
                    KeyCmp::Above => {
                        proof {
                            if Self::sub_map(node.left).dom().contains(*key) {
                                K::lemma_strict(node.key, *key);
                            }
                            K::lemma_strict(node.key, *key);
                        }
                        Self::sub_get(&node.right, key)
                    },
                }
            },
        }
    }

    /// Put an entry into a subtree; the entry an equal key already had,
    /// key and value both, comes back out.
    fn sub_put(sub: &mut Option<Box<TreeNode<K, V>>>, key: K, value: V) -> (r: Option<(K, V)>)
        requires
            Self::sub_ordered(*old(sub)),
        ensures
            Self::sub_ordered(*final(sub)),
            Self::sub_map(*final(sub)) == Self::sub_map(*old(sub)).insert(key, value),
            match r {
                Some((k0, v0)) => Self::sub_map(*old(sub)).dom().contains(key) && k0 == key && v0
                    == Self::sub_map(*old(sub))[key],
                None => !Self::sub_map(*old(sub)).dom().contains(key),
            },
        decreases *old(sub),
    {
        match sub.take() {
            None => {
                *sub = Some(
                    Box::new(TreeNode { key: key, value: value, left: None, right: None }),
                );
                proof {
                    assert(Self::sub_map(*sub) =~= Self::sub_map(
                        None::<Box<TreeNode<K, V>>>,
                    ).insert(key, value));
                }
                None
            },
            Some(mut node) => {
                let r = match key.compare(&node.key) {
                    KeyCmp::Same => {
                        proof {
                            if Self::sub_map(node.left).dom().contains(key) {
                                K::lemma_strict(key, node.key);
                            }
                            if Self::sub_map(node.right).dom().contains(key) {
                                K::lemma_strict(node.key, key);
                            }
                            assert(!Self::sub_map(node.left).dom().contains(key));
                            assert(!Self::sub_map(node.right).dom().contains(key));
                        }
                        let TreeNode { key: old_key, value: old_value, left, right } = *node;
                        node = Box::new(TreeNode { key: key, value: value, left, right });
                        Some((old_key, old_value))
                    },
                    KeyCmp::Below => {
                        proof {
                            K::lemma_strict(key, node.key);
                            if Self::sub_map(node.right).dom().contains(key) {
                                K::lemma_strict(key, node.key);
                            }
                        }
                        let r = Self::sub_put(&mut node.left, key, value);
                        r
                    },
                    KeyCmp::Above => {
                        proof {
                            K::lemma_strict(node.key, key);
                            if Self::sub_map(node.left).dom().contains(key) {
                                K::lemma_strict(node.key, key);
                            }
                        }
                        let r = Self::sub_put(&mut node.right, key, value);
                        r
                    },
                };
                proof {
                    assert(node.entries() =~= Self::sub_map(*old(sub)).insert(key, value));
                }
                *sub = Some(node);
                r
            },
        }
    }

    /// Take the greatest entry out of a nonempty subtree.
    fn sub_pop_max(sub: &mut Option<Box<TreeNode<K, V>>>) -> (top: (K, V))
        requires
            *old(sub) is Some,
            Self::sub_ordered(*old(sub)),
        ensures
            Self::sub_ordered(*final(sub)),
            Self::sub_map(*old(sub)).dom().contains(top.0),
            Self::sub_map(*old(sub))[top.0] == top.1,
            Self::sub_map(*final(sub)) == Self::sub_map(*old(sub)).remove(top.0),
            forall|k: K|
                Self::sub_map(*final(sub)).dom().contains(k) ==> #[trigger] k.lt(top.0),
        decreases *old(sub),
    {
        let mut node = sub.take().unwrap();
        if node.right.is_none() {
            proof {
                assert(Self::sub_map(node.right) =~= Map::<K, V>::empty());
                if Self::sub_map(node.left).dom().contains(node.key) {
                    K::lemma_strict(node.key, node.key);
                }
                assert(!Self::sub_map(node.left).dom().contains(node.key));
                assert(Self::sub_map(node.left) =~= node.entries().remove(node.key));
            }
            let TreeNode { key, value, left, right } = *node;
            *sub = left;
            (key, value)
        } else {
            let top = Self::sub_pop_max(&mut node.right);
            proof {
                if Self::sub_map(node.left).dom().contains(top.0) {
                    K::lemma_strict(top.0, node.key);
                }
                if top.0 == node.key {
                    K::lemma_strict(node.key, top.0);
                }
                assert(node.entries() =~= Self::sub_map(*old(sub)).remove(top.0));
                assert forall|k: K| node.entries().dom().contains(k) implies #[trigger] k.lt(
                    top.0,
                ) by {
                    if Self::sub_map(node.left).dom().contains(k) {
                        K::lemma_transitive(k, node.key, top.0);
                    } else if k == node.key {
                    } else {
                    }
                }
            }
            *sub = Some(node);
            top
        }
    }

    /// Take the entry of an equal key out of a subtree.
    fn sub_take(sub: &mut Option<Box<TreeNode<K, V>>>, key: &K) -> (r: Option<(K, V)>)
        requires
            Self::sub_ordered(*old(sub)),
        ensures
            Self::sub_ordered(*final(sub)),
            Self::sub_map(*final(sub)) == Self::sub_map(*old(sub)).remove(*key),
            match r {
                Some((k0, v0)) => Self::sub_map(*old(sub)).dom().contains(*key) && k0 == *key
                    && v0 == Self::sub_map(*old(sub))[*key],
                None => !Self::sub_map(*old(sub)).dom().contains(*key),
            },
        decreases *old(sub),
    {
        match sub.take() {
            None => {
                proof {
                    assert(Self::sub_map(None::<Box<TreeNode<K, V>>>) =~= Self::sub_map(
                        None::<Box<TreeNode<K, V>>>,
                    ).remove(*key));
                }
                None
            },
            Some(mut node) => {
                match key.compare(&node.key) {
                    KeyCmp::Same => {
                        proof {
                            if Self::sub_map(node.left).dom().contains(*key) {
                                K::lemma_strict(*key, node.key);
                            }
                            if Self::sub_map(node.right).dom().contains(*key) {
                                K::lemma_strict(node.key, *key);
                            }
                            assert(!Self::sub_map(node.left).dom().contains(*key));
                            assert(!Self::sub_map(node.right).dom().contains(*key));
                        }
                        if node.left.is_none() {
                            proof {
                                assert(Self::sub_map(node.left) =~= Map::<K, V>::empty());
                                assert(Self::sub_map(node.right) =~= node.entries().remove(
                                    *key,
                                ));
                            }
                            let TreeNode { key: k0, value: v0, left, right } = *node;
                            *sub = right;
                            Some((k0, v0))
                        } else if node.right.is_none() {
                            proof {
                                assert(Self::sub_map(node.right) =~= Map::<K, V>::empty());
                                assert(Self::sub_map(node.left) =~= node.entries().remove(*key));
                            }
                            let TreeNode { key: k0, value: v0, left, right } = *node;
                            *sub = left;
                            Some((k0, v0))
                        } else {
                            let top = Self::sub_pop_max(&mut node.left);
                            proof {
                                if Self::sub_map(node.right).dom().contains(top.0) {
                                    K::lemma_strict(top.0, node.key);
                                }
                            }
                            let TreeNode { key: old_key, value: old_value, left, right } = *node;
                            let node2 = Box::new(
                                TreeNode { key: top.0, value: top.1, left, right },
                            );
                            proof {
                                assert forall|k: K|
                                    Self::sub_map(node2.right).dom().contains(k) implies #[trigger]
                                node2.key.lt(k) by {
                                    K::lemma_transitive(node2.key, old_key, k);
                                }
                                assert(node2.entries() =~= Self::sub_map(*old(sub)).remove(
                                    old_key,
                                ));
                            }
                            *sub = Some(node2);
                            Some((old_key, old_value))
                        }
                    },
                    KeyCmp::Below => {
                        proof {
                            K::lemma_strict(*key, node.key);
                            if Self::sub_map(node.right).dom().contains(*key) {
                                K::lemma_strict(*key, node.key);
                            }
                        }
                        let r = Self::sub_take(&mut node.left, key);
                        proof {
                            assert(node.entries() =~= Self::sub_map(*old(sub)).remove(*key));
                        }
                        *sub = Some(node);
                        r
                    },
                    KeyCmp::Above => {
                        proof {
                            K::lemma_strict(node.key, *key);
                            if Self::sub_map(node.left).dom().contains(*key) {
                                K::lemma_strict(node.key, *key);
                            }
                        }
                        let r = Self::sub_take(&mut node.right, key);
                        proof {
                            assert(node.entries() =~= Self::sub_map(*old(sub)).remove(*key));
                        }
                        *sub = Some(node);
                        r
                    },
                }
            },
        }
    }
}

impl<K: TotalOrder, V> TreeMap<K, V> {
    /// The map the tree holds.
    pub closed spec fn as_map(self) -> Map<K, V> {
        TreeNode::<K, V>::sub_map(self.root)
    }

    /// The tree is a search tree and the recorded length is the number
    /// of entries.
    pub closed spec fn wf(self) -> bool {
        &&& TreeNode::<K, V>::sub_ordered(self.root)
        &&& self@.dom().finite()
        &&& self.length == self@.dom().len()
    }

    /// An empty map.
    pub fn new() -> (r: TreeMap<K, V>)
        ensures
            r.wf(),
            r@ == Map::<K, V>::empty(),
    {
        TreeMap { root: None, length: 0 }
    }

    /// Drop every entry.
    pub fn clear(&mut self)
        ensures
            final(self).wf(),
            final(self)@ == Map::<K, V>::empty(),
    {
        self.root = None;
        self.length = 0;
    }

    /// The value an equal key maps to.
    pub fn get(&self, key: &K) -> (r: Option<&V>)
        requires
            self.wf(),
        ensures
            match r {
                Some(v) => self@.dom().contains(*key) && *v == self@[*key],
                None => !self@.dom().contains(*key),
            },
    {
        match TreeNode::<K, V>::sub_get(&self.root, key) {
            Some((_, v)) => Some(v),
            None => None,
        }
    }

    /// The stored key equal to the one sought, with its value.
    pub fn get_key_value(&self, key: &K) -> (r: Option<(&K, &V)>)
        requires
            self.wf(),
        ensures
            match r {
                Some((k, v)) => self@.dom().contains(*key) && *k == *key && *v == self@[*key],
                None => !self@.dom().contains(*key),
            },
    {
        TreeNode::<K, V>::sub_get(&self.root, key)
    }

    /// Whether an equal key is present.
    pub fn contains_key(&self, key: &K) -> (r: bool)
        requires
            self.wf(),
        ensures
            r == self@.dom().contains(*key),
    {
        self.get(key).is_some()
    }

    /// Map the key to the value. The value the key mapped to before
    /// comes back; the stored key stays as it was.
    pub fn insert(&mut self, key: K, value: V) -> (r: Option<V>)
        requires
            old(self).wf(),
            old(self)@.dom().len() < usize::MAX,
        ensures
            final(self).wf(),
            final(self)@ == old(self)@.insert(key, value),
            match r {
                Some(v) => old(self)@.dom().contains(key) && v == old(self)@[key],
                None => !old(self)@.dom().contains(key),
            },
    {
        let ghost m0 = self@;
        let r = TreeNode::<K, V>::sub_put(&mut self.root, key, value);
        proof {
            axiom_set_insert_len(m0.dom(), key);
            assert(m0.insert(key, value).dom() =~= m0.dom().insert(key));
        }
        if r.is_none() {
            self.length = self.length + 1;
        }
        match r {
            Some((_, v)) => Some(v),
            None => None,
        }
    }

    /// Drop the entry of an equal key; its value comes back.
    pub fn remove(&mut self, key: &K) -> (r: Option<V>)
        requires
            old(self).wf(),
        ensures
            final(self).wf(),
            final(self)@ == old(self)@.remove(*key),
            match r {
                Some(v) => old(self)@.dom().contains(*key) && v == old(self)@[*key],
                None => !old(self)@.dom().contains(*key),
            },
    {
        match self.remove_entry(key) {
            Some((_, v)) => Some(v),
            None => None,
        }
    }

    /// Drop the entry of an equal key; the stored key and its value
    /// come back.
    pub(crate) fn remove_entry(&mut self, key: &K) -> (r: Option<(K, V)>)
        requires
            old(self).wf(),
        ensures
            final(self).wf(),
            final(self)@ == old(self)@.remove(*key),
            match r {
                Some((k0, v0)) => old(self)@.dom().contains(*key) && k0 == *key && v0 == old(
                    self,
                )@[*key],
                None => !old(self)@.dom().contains(*key),
            },
    {
        let ghost m0 = self@;
        let r = TreeNode::<K, V>::sub_take(&mut self.root, key);
        proof {
            axiom_set_remove_len(m0.dom(), *key);
            assert(m0.remove(*key).dom() =~= m0.dom().remove(*key));
        }
        if r.is_some() {
            self.length = self.length - 1;
        }
        r
    }

    /// The entries in ascending key order, one reference pair each:
    /// every pair is an entry, every key appears, and the keys strictly
    /// ascend.
    pub fn iter(&self) -> (r: Vec<(&K, &V)>)
        requires
            self.wf(),
        ensures
            forall|i: int|
                0 <= i < r@.len() ==> self@.dom().contains(*(#[trigger] r@[i]).0) && *r@[i].1
                    == self@[*r@[i].0],
            forall|k: K|
                self@.dom().contains(k) ==> exists|i: int|
                    0 <= i < r@.len() && *(#[trigger] r@[i]).0 == k,
            forall|i: int, j: int|
                0 <= i < j < r@.len() ==> (*(#[trigger] r@[i]).0).lt(*(#[trigger] r@[j]).0),
    {
        let mut out: Vec<(&K, &V)> = Vec::new();
        TreeNode::<K, V>::sub_pairs(&self.root, &mut out);
        out
    }

    /// How many entries the map holds.
    pub fn len(&self) -> (r: usize)
        requires
            self.wf(),
        ensures
            r == self@.len(),
    {
        self.length
    }

    /// Whether the map holds no entry.
    pub fn is_empty(&self) -> (r: bool)
        requires
            self.wf(),
        ensures
            r == self@.is_empty(),
    {
        proof {
            if self@.dom().len() == 0 {
                vstd::set_lib::lemma_set_empty_equivalency_len(self@.dom());
            }
        }
        self.len() == 0
    }
}

impl<K: TotalOrder + Copy, V> TreeMap<K, V> {
    /// The keys in ascending order: every one is present, every present
    /// key appears, and they strictly ascend.
    pub fn keys(&self) -> (r: Vec<K>)
        requires
            self.wf(),
        ensures
            forall|i: int| 0 <= i < r@.len() ==> self@.dom().contains(#[trigger] r@[i]),
            forall|k: K|
                self@.dom().contains(k) ==> exists|i: int| 0 <= i < r@.len() && #[trigger] r@[i]
                    == k,
            forall|i: int, j: int|
                0 <= i < j < r@.len() ==> (#[trigger] r@[i]).lt(#[trigger] r@[j]),
    {
        let pairs = self.iter();
        let mut out: Vec<K> = Vec::new();
        let mut idx: usize = 0;
        while idx < pairs.len()
            invariant
                idx <= pairs@.len(),
                out@.len() == idx,
                forall|i: int| 0 <= i < idx ==> out@[i] == *(#[trigger] pairs@[i]).0,
            decreases pairs@.len() - idx,
        {
            let p = pairs[idx];
            out.push(*p.0);
            idx = idx + 1;
        }
        proof {
            assert forall|i: int| 0 <= i < out@.len() implies self@.dom().contains(
                #[trigger] out@[i],
            ) by {
                assert(out@[i] == *pairs@[i].0);
            }
            assert forall|i: int, j: int|
                0 <= i < j < out@.len() implies (#[trigger] out@[i]).lt(
                #[trigger] out@[j],
            ) by {
                assert(out@[i] == *pairs@[i].0);
                assert(out@[j] == *pairs@[j].0);
            }
            assert forall|k: K| self@.dom().contains(k) implies exists|i: int|
                0 <= i < out@.len() && #[trigger] out@[i] == k by {
                let i = choose|i: int| 0 <= i < pairs@.len() && *(#[trigger] pairs@[i]).0 == k;
                assert(out@[i] == k);
            }
        }
        out
    }
}

impl<K: TotalOrder, V: Copy> TreeMap<K, V> {
    /// The values, in ascending order of their keys: some strictly
    /// ascending key sequence covers the whole map, and the result
    /// lists its values in that order.
    pub fn values(&self) -> (r: Vec<V>)
        requires
            self.wf(),
        ensures
            exists|ks: Seq<K>|
                ks.len() == r@.len() && (forall|i: int|
                    0 <= i < ks.len() ==> self@.dom().contains(#[trigger] ks[i]) && r@[i]
                        == self@[ks[i]]) && (forall|k: K|
                    self@.dom().contains(k) ==> ks.contains(k)) && (forall|i: int, j: int|
                    0 <= i < j < ks.len() ==> (#[trigger] ks[i]).lt(#[trigger] ks[j])),
    {
        let pairs = self.iter();
        let mut out: Vec<V> = Vec::new();
        let mut idx: usize = 0;
        while idx < pairs.len()
            invariant
                idx <= pairs@.len(),
                out@.len() == idx,
                forall|i: int| 0 <= i < idx ==> out@[i] == *(#[trigger] pairs@[i]).1,
            decreases pairs@.len() - idx,
        {
            let p = pairs[idx];
            out.push(*p.1);
            idx = idx + 1;
        }
        proof {
            let ks = Seq::new(pairs@.len() as nat, |i: int| *pairs@[i].0);
            assert forall|k: K| self@.dom().contains(k) implies ks.contains(k) by {
                let i = choose|i: int| 0 <= i < pairs@.len() && *(#[trigger] pairs@[i]).0 == k;
                assert(ks[i] == k);
            }
            assert(ks.len() == out@.len() && (forall|i: int|
                0 <= i < ks.len() ==> self@.dom().contains(#[trigger] ks[i]) && out@[i]
                    == self@[ks[i]]) && (forall|k: K|
                self@.dom().contains(k) ==> ks.contains(k)) && (forall|i: int, j: int|
                0 <= i < j < ks.len() ==> (#[trigger] ks[i]).lt(#[trigger] ks[j])));
        }
        out
    }
}

impl<K: TotalOrder, V> View for TreeMap<K, V> {
    type V = Map<K, V>;

    open spec fn view(&self) -> Map<K, V> {
        self.as_map()
    }
}

} // verus!

//! A tiny association list for key sets too small to justify hashing:
//! a vector of pairs with insert-if-absent.

use vstd::prelude::*;
use vstd::std_specs::cmp::PartialEqSpec;

verus! {

/// A map stored as a vector of key-value pairs with unique keys.
pub struct SmallMap<K, V>(pub Vec<(K, V)>);

/// Whether `keys` holds a key equal (by `eq_spec`) to `k`.
pub open spec fn spec_has_key<K: PartialEq + PartialEqSpec, V>(entries: Seq<(K, V)>, k: K) -> bool {
    exists|i: int| 0 <= i < entries.len() && (#[trigger] entries[i]).0.eq_spec(&k)
}

impl<K, V> SmallMap<K, V> {
    /// An empty map.
    pub fn new() -> (m: Self)
        ensures
            m.0@.len() == 0,
    {
        SmallMap(Vec::new())
    }

    /// An empty map with room reserved for `size` entries.
    pub fn with_capacity(size: usize) -> (m: Self)
        ensures
            m.0@.len() == 0,
    {
        SmallMap(Vec::with_capacity(size))
    }
}

impl<K: PartialEq + PartialEqSpec, V> SmallMap<K, V> {
    /// Insert `k -> v` unless a key equal to `k` is already present;
    /// reports whether the entry was inserted.
    pub fn insert(&mut self, k: K, v: V) -> (r: bool)
        ensures
            final(self).0@ == old(self).0@ || final(self).0@ == old(self).0@.push((k, v)),
            K::obeys_eq_spec() ==> {
                &&& r == !spec_has_key(old(self).0@, k)
                &&& (r ==> final(self).0@ == old(self).0@.push((k, v)))
                &&& (!r ==> final(self).0@ == old(self).0@)
            },
    {
        let n = self.0.len();
        let mut i: usize = 0;
        while i < n
            invariant
                n == self.0@.len(),
                self.0@ == old(self).0@,
                i <= n,
                K::obeys_eq_spec() ==> forall|q: int|
                    0 <= q < i ==> !(#[trigger] self.0@[q]).0.eq_spec(&k),
            decreases n - i,
        {
            if self.0[i].0 == k {
                return false;
            }
            i = i + 1;
        }
        self.0.push((k, v));
        true
    }
}

/// A set stored as a [`SmallMap`] with unit values.
pub struct SmallSet<K>(pub SmallMap<K, ()>);

impl<K> SmallSet<K> {
    /// An empty set.
    pub fn new() -> (s: Self)
        ensures
            s.0.0@.len() == 0,
    {
        SmallSet(SmallMap::new())
    }

    /// An empty set with room reserved for `size` entries.
    pub fn with_capacity(size: usize) -> (s: Self)
        ensures
            s.0.0@.len() == 0,
    {
        SmallSet(SmallMap::with_capacity(size))
    }
}

/// Whether `keys` holds a key equal (by `eq_spec`) to `k`.
pub open spec fn seq_has_key<K: PartialEq + PartialEqSpec>(keys: Seq<K>, k: K) -> bool {
    exists|i: int| 0 <= i < keys.len() && (#[trigger] keys[i]).eq_spec(&k)
}

/// Insert-if-absent over some set representation.
pub trait SetLike<K: PartialEq + PartialEqSpec>: Sized {
    spec fn spec_keys(&self) -> Seq<K>;

    /// Insert `k` unless a key equal to it is already present; reports
    /// whether the set grew.
    fn insert(&mut self, k: K) -> (r: bool)
        ensures
            final(self).spec_keys().len() >= old(self).spec_keys().len(),
            K::obeys_eq_spec() ==> {
                &&& r == !seq_has_key(old(self).spec_keys(), k)
                &&& (r ==> final(self).spec_keys() == old(self).spec_keys().push(k))
                &&& (!r ==> final(self).spec_keys() == old(self).spec_keys())
            },
    ;
}

impl<K: PartialEq + PartialEqSpec> SetLike<K> for SmallSet<K> {
    closed spec fn spec_keys(&self) -> Seq<K> {
        self.0.0@.map_values(|e: (K, ())| e.0)
    }

    fn insert(&mut self, k: K) -> (r: bool) {
        let ghost entries0 = self.0.0@;
        let r = self.0.insert(k, ());
        proof {
            if self.0.0@ == entries0.push((k, ())) {
                assert(self.spec_keys() =~= old(self).spec_keys().push(k));
            } else {
                assert(self.0.0@ == entries0);
                assert(self.spec_keys() =~= old(self).spec_keys());
            }
            if K::obeys_eq_spec() {
                if spec_has_key(entries0, k) {
                    let i = choose|i: int|
                        0 <= i < entries0.len() && (#[trigger] entries0[i]).0.eq_spec(&k);
                    assert(old(self).spec_keys()[i].eq_spec(&k));
                    assert(seq_has_key(old(self).spec_keys(), k));
                }
                if seq_has_key(old(self).spec_keys(), k) {
                    let i = choose|i: int|
                        0 <= i < old(self).spec_keys().len() && (#[trigger] old(
                            self,
                        ).spec_keys()[i]).eq_spec(&k);
                    assert(entries0[i].0.eq_spec(&k));
                    assert(spec_has_key(entries0, k));
                }
            }
        }
        r
    }
}

} // verus!

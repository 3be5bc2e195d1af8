//! A small map kept as a list of key-value pairs with distinct keys, in the
//! order the keys were first inserted. The routing tables are built on it.

use vstd::prelude::*;
use crate::types::{ModifierId, PeerId};

verus! {

broadcast use vstd::array::group_array_axioms;

/// Keys that can be compared for equality in executable code.
pub trait KeyEq: Sized + Copy {
    fn key_eq(&self, other: &Self) -> (b: bool)
        ensures
            b == (*self == *other),
    ;
}

impl KeyEq for PeerId {
    fn key_eq(&self, other: &Self) -> (b: bool) {
        self.0 == other.0
    }
}

impl KeyEq for ModifierId {
    fn key_eq(&self, other: &Self) -> (b: bool) {
        let mut i: usize = 0;
        while i < 32
            invariant
                i <= 32,
                forall|j: int| 0 <= j < i ==> self[j] == other[j],
            decreases 32 - i,
        {
            if self[i] != other[i] {
                return false;
            }
            i = i + 1;
        }
        assert(*self =~= *other);
        true
    }
}

/// No key occurs twice.
pub open spec fn keys_distinct<K, V>(s: Seq<(K, V)>) -> bool {
    forall|i: int, j: int| 0 <= i < j < s.len() ==> s[i].0 != s[j].0
}

/// Some pair has key `k`.
pub open spec fn has_key<K, V>(s: Seq<(K, V)>, k: K) -> bool {
    exists|i: int| 0 <= i < s.len() && s[i].0 == k
}

/// The index of the pair with key `k`.
pub open spec fn key_index<K, V>(s: Seq<(K, V)>, k: K) -> int {
    choose|i: int| 0 <= i < s.len() && s[i].0 == k
}

/// The map that a list of pairs stands for.
pub open spec fn assoc_map<K, V>(s: Seq<(K, V)>) -> Map<K, V>
    decreases s.len(),
{
    if s.len() == 0 {
        Map::empty()
    } else {
        assoc_map(s.drop_last()).insert(s.last().0, s.last().1)
    }
}

/// The pairs after setting `k` to `v`: in place if `k` is present, else at the end.
pub open spec fn seq_insert<K, V>(s: Seq<(K, V)>, k: K, v: V) -> Seq<(K, V)> {
    if has_key(s, k) {
        s.update(key_index(s, k), (k, v))
    } else {
        s.push((k, v))
    }
}

/// The pairs after removing key `k`.
pub open spec fn seq_remove_key<K, V>(s: Seq<(K, V)>, k: K) -> Seq<(K, V)> {
    if has_key(s, k) {
        s.remove(key_index(s, k))
    } else {
        s
    }
}

/// The pairs whose value is not `v`, in order.
pub open spec fn seq_without_value<K, V>(s: Seq<(K, V)>, v: V) -> Seq<(K, V)>
    decreases s.len(),
{
    if s.len() == 0 {
        seq![]
    } else {
        let r = seq_without_value(s.drop_last(), v);
        if s.last().1 == v {
            r
        } else {
            r.push(s.last())
        }
    }
}

/// `m` without the keys that map to `v`.
pub open spec fn map_without_value<K, V>(m: Map<K, V>, v: V) -> Map<K, V> {
    Map::new(|k: K| m.dom().contains(k) && m[k] != v, |k: K| m[k])
}

/// A key is in the map exactly when some pair has it.
pub proof fn lemma_assoc_dom<K, V>(s: Seq<(K, V)>, k: K)
    ensures
        assoc_map(s).dom().contains(k) <==> has_key(s, k),
    decreases s.len(),
{
    if s.len() > 0 {
        lemma_assoc_dom(s.drop_last(), k);
        if has_key(s.drop_last(), k) {
            let i = choose|i: int| 0 <= i < s.drop_last().len() && s.drop_last()[i].0 == k;
            assert(s[i].0 == k);
        }
        if has_key(s, k) && s.last().0 != k {
            let i = choose|i: int| 0 <= i < s.len() && s[i].0 == k;
            assert(s.drop_last()[i].0 == k);
        }
    }
}

/// With distinct keys, the map gives each pair's value to its key.
pub proof fn lemma_assoc_value<K, V>(s: Seq<(K, V)>, i: int)
    requires
        keys_distinct(s),
        0 <= i < s.len(),
    ensures
        assoc_map(s).dom().contains(s[i].0),
        assoc_map(s)[s[i].0] == s[i].1,
    decreases s.len(),
{
    if i < s.len() - 1 {
        lemma_assoc_value(s.drop_last(), i);
    }
}

/// With distinct keys, `key_index` finds the pair of a present key.
pub proof fn lemma_key_index<K, V>(s: Seq<(K, V)>, k: K)
    requires
        has_key(s, k),
    ensures
        0 <= key_index(s, k) < s.len(),
        s[key_index(s, k)].0 == k,
{
}

/// The map of `seq_insert` is the map with `k` set to `v`.
pub proof fn lemma_seq_insert<K, V>(s: Seq<(K, V)>, k: K, v: V)
    requires
        keys_distinct(s),
    ensures
        keys_distinct(seq_insert(s, k, v)),
        assoc_map(seq_insert(s, k, v)) == assoc_map(s).insert(k, v),
{
    let t = seq_insert(s, k, v);
    let m = assoc_map(s).insert(k, v);
    assert forall|x: K| #[trigger] assoc_map(t).dom().contains(x) <==> m.dom().contains(x) by {
        lemma_assoc_dom(t, x);
        lemma_assoc_dom(s, x);
        if has_key(s, x) {
            let i = choose|i: int| 0 <= i < s.len() && s[i].0 == x;
            if x != k {
                assert(t[i].0 == x);
            }
        }
        if has_key(t, x) {
            let i = choose|i: int| 0 <= i < t.len() && t[i].0 == x;
            if x != k {
                assert(s[i].0 == x);
            }
        }
        if x == k {
            if has_key(s, k) {
                assert(t[key_index(s, k)].0 == k);
            } else {
                assert(t[s.len() as int].0 == k);
            }
        }
    }
    assert forall|x: K| #[trigger] assoc_map(t).dom().contains(x) implies assoc_map(t)[x] == m[x] by {
        lemma_assoc_dom(t, x);
        let i = choose|i: int| 0 <= i < t.len() && t[i].0 == x;
        lemma_assoc_value(t, i);
        if x != k {
            assert(s[i].0 == x);
            lemma_assoc_value(s, i);
        }
    }
    assert(assoc_map(t) =~= m);
}

/// The map of `seq_remove_key` is the map without `k`.
pub proof fn lemma_seq_remove_key<K, V>(s: Seq<(K, V)>, k: K)
    requires
        keys_distinct(s),
    ensures
        keys_distinct(seq_remove_key(s, k)),
        assoc_map(seq_remove_key(s, k)) == assoc_map(s).remove(k),
{
    let t = seq_remove_key(s, k);
    let m = assoc_map(s).remove(k);
    if has_key(s, k) {
        let j = key_index(s, k);
        assert forall|a: int, b: int| 0 <= a < b < t.len() implies t[a].0 != t[b].0 by {
            let a2 = if a < j {
                a
            } else {
                a + 1
            };
            let b2 = if b < j {
                b
            } else {
                b + 1
            };
            assert(t[a] == s[a2]);
            assert(t[b] == s[b2]);
        }
        assert forall|x: K| #[trigger] assoc_map(t).dom().contains(x) <==> m.dom().contains(x) by {
            lemma_assoc_dom(t, x);
            lemma_assoc_dom(s, x);
            if has_key(s, x) && x != k {
                let i = choose|i: int| 0 <= i < s.len() && s[i].0 == x;
                assert(i != j);
                let i2 = if i < j {
                    i
                } else {
                    i - 1
                };
                assert(t[i2].0 == x);
            }
            if has_key(t, x) {
                let i = choose|i: int| 0 <= i < t.len() && t[i].0 == x;
                let i2 = if i < j {
                    i
                } else {
                    i + 1
                };
                assert(s[i2].0 == x);
                assert(i2 != j);
            }
        }
        assert forall|x: K| #[trigger] assoc_map(t).dom().contains(x) implies assoc_map(t)[x] == m[x] by {
            lemma_assoc_dom(t, x);
            let i = choose|i: int| 0 <= i < t.len() && t[i].0 == x;
            lemma_assoc_value(t, i);
            let i2 = if i < j {
                i
            } else {
                i + 1
            };
            assert(s[i2] == t[i]);
            lemma_assoc_value(s, i2);
        }
        assert(assoc_map(t) =~= m);
    } else {
        assert forall|x: K| #[trigger] assoc_map(s).dom().contains(x) implies x != k by {
            lemma_assoc_dom(s, x);
        }
        assert(assoc_map(t) =~= m);
    }
}

proof fn lemma_without_value_subset<K, V>(s: Seq<(K, V)>, v: V, i: int)
    requires
        0 <= i < seq_without_value(s, v).len(),
    ensures
        exists|j: int| 0 <= j < s.len() && s[j] == seq_without_value(s, v)[i],
    decreases s.len(),
{
    if s.len() > 0 {
        let r = seq_without_value(s.drop_last(), v);
        if i < r.len() {
            lemma_without_value_subset(s.drop_last(), v, i);
            let j = choose|j: int| 0 <= j < s.drop_last().len() && s.drop_last()[j] == r[i];
            assert(s[j] == r[i]);
        } else {
            assert(s[s.len() - 1] == seq_without_value(s, v)[i]);
        }
    }
}

/// The map of `seq_without_value` is the map without the keys that map to `v`.
pub proof fn lemma_seq_without_value<K, V>(s: Seq<(K, V)>, v: V)
    requires
        keys_distinct(s),
    ensures
        keys_distinct(seq_without_value(s, v)),
        assoc_map(seq_without_value(s, v)) == map_without_value(assoc_map(s), v),
    decreases s.len(),
{
    if s.len() > 0 {
        let d = s.drop_last();
        let e = s.last();
        let r = seq_without_value(d, v);
        lemma_seq_without_value(d, v);
        assert forall|x: K| #[trigger] assoc_map(d).dom().contains(x) implies x != e.0 by {
            lemma_assoc_dom(d, x);
        }
        if e.1 != v {
            assert forall|a: int, b: int| 0 <= a < b < r.len() + 1 implies r.push(e)[a].0 != r.push(
                e,
            )[b].0 by {
                if b == r.len() {
                    lemma_without_value_subset(d, v, a);
                }
            }
        }
        let md = assoc_map(d);
        assert(assoc_map(s) == md.insert(e.0, e.1));
        if e.1 != v {
            assert(r.push(e).drop_last() == r);
            assert(seq_without_value(s, v) == r.push(e));
            assert(assoc_map(r.push(e)) == assoc_map(r).insert(e.0, e.1));
            assert(assoc_map(seq_without_value(s, v)) =~= map_without_value(assoc_map(s), v));
        } else {
            assert(seq_without_value(s, v) == r);
            assert(assoc_map(seq_without_value(s, v)) =~= map_without_value(assoc_map(s), v));
        }
    } else {
        assert(assoc_map(seq_without_value(s, v)) =~= map_without_value(assoc_map(s), v));
    }
}

/// A map from keys to values, kept as a list of pairs with distinct keys.
pub struct AssocMap<K, V> {
    entries: Vec<(K, V)>,
}

impl<K: KeyEq, V: Copy> AssocMap<K, V> {
    /// The pairs, in the order their keys were first inserted.
    pub closed spec fn seq(&self) -> Seq<(K, V)> {
        self.entries@
    }

    /// No key occurs twice.
    pub open spec fn wf(&self) -> bool {
        keys_distinct(self.seq())
    }

    /// The map the pairs stand for.
    pub open spec fn map(&self) -> Map<K, V> {
        assoc_map(self.seq())
    }

    pub fn new() -> (m: Self)
        ensures
            m.seq() == Seq::<(K, V)>::empty(),
            m.wf(),
            m.map() == Map::<K, V>::empty(),
    {
        AssocMap { entries: Vec::new() }
    }

    pub fn len(&self) -> (n: usize)
        ensures
            n == self.seq().len(),
    {
        self.entries.len()
    }

    /// The pair at position `i`.
    pub fn entry(&self, i: usize) -> (e: (K, V))
        requires
            i < self.seq().len(),
        ensures
            e == self.seq()[i as int],
    {
        self.entries[i]
    }

    /// The position of the pair with key `k`, if any.
    pub fn find(&self, k: &K) -> (r: Option<usize>)
        ensures
            match r {
                Some(i) => i < self.seq().len() && self.seq()[i as int].0 == *k,
                None => !has_key(self.seq(), *k),
            },
    {
        let mut i: usize = 0;
        while i < self.entries.len()
            invariant
                i <= self.entries@.len(),
                forall|j: int| 0 <= j < i ==> self.entries@[j].0 != *k,
            decreases self.entries.len() - i,
        {
            if self.entries[i].0.key_eq(k) {
                return Some(i);
            }
            i = i + 1;
        }
        None
    }

    /// The value for `k`, if any.
    pub fn get(&self, k: &K) -> (r: Option<V>)
        requires
            self.wf(),
        ensures
            r == (if self.map().dom().contains(*k) {
                Some(self.map()[*k])
            } else {
                None::<V>
            }),
    {
        proof {
            lemma_assoc_dom(self.seq(), *k);
        }
        match self.find(k) {
            Some(i) => {
                proof {
                    lemma_assoc_value(self.seq(), i as int);
                }
                Some(self.entries[i].1)
            },
            None => None,
        }
    }

    /// Sets `k` to `v`.
    pub fn insert(&mut self, k: K, v: V)
        requires
            old(self).wf(),
        ensures
            final(self).wf(),
            final(self).seq() == seq_insert(old(self).seq(), k, v),
            final(self).map() == old(self).map().insert(k, v),
    {
        proof {
            lemma_seq_insert(self.seq(), k, v);
        }
        match self.find(&k) {
            Some(i) => {
                proof {
                    lemma_key_index(self.seq(), k);
                    assert(key_index(self.seq(), k) == i) by {
                        let j = key_index(self.seq(), k);
                        if j != i {
                            assert(self.seq()[j].0 == self.seq()[i as int].0);
                        }
                    }
                }
                self.entries.set(i, (k, v));
            },
            None => {
                self.entries.push((k, v));
            },
        }
    }

    /// Removes `k`, returning its value if it was present.
    pub fn remove(&mut self, k: &K) -> (r: Option<V>)
        requires
            old(self).wf(),
        ensures
            final(self).wf(),
            final(self).seq() == seq_remove_key(old(self).seq(), *k),
            final(self).map() == old(self).map().remove(*k),
            r == (if old(self).map().dom().contains(*k) {
                Some(old(self).map()[*k])
            } else {
                None::<V>
            }),
    {
        proof {
            lemma_seq_remove_key(self.seq(), *k);
            lemma_assoc_dom(self.seq(), *k);
        }
        match self.find(k) {
            Some(i) => {
                proof {
                    lemma_key_index(self.seq(), *k);
                    assert(key_index(self.seq(), *k) == i) by {
                        let j = key_index(self.seq(), *k);
                        if j != i {
                            assert(self.seq()[j].0 == self.seq()[i as int].0);
                        }
                    }
                    lemma_assoc_value(self.seq(), i as int);
                }
                let e = self.entries.remove(i);
                Some(e.1)
            },
            None => None,
        }
    }
}

impl<K: KeyEq, V: KeyEq> AssocMap<K, V> {
    /// Removes every pair whose value is `v`.
    pub fn remove_value(&mut self, v: &V)
        requires
            old(self).wf(),
        ensures
            final(self).wf(),
            final(self).seq() == seq_without_value(old(self).seq(), *v),
            final(self).map() == map_without_value(old(self).map(), *v),
    {
        proof {
            lemma_seq_without_value(self.seq(), *v);
        }
        let ghost s = self.seq();
        let mut kept: Vec<(K, V)> = Vec::new();
        let mut i: usize = 0;
        while i < self.entries.len()
            invariant
                s == self.entries@,
                i <= s.len(),
                kept@ == seq_without_value(s.take(i as int), *v),
            decreases self.entries.len() - i,
        {
            let e = self.entries[i];
            assert(s.take(i + 1).drop_last() == s.take(i as int));
            if !e.1.key_eq(v) {
                kept.push(e);
            }
            i = i + 1;
        }
        assert(s.take(s.len() as int) == s);
        self.entries = kept;
    }
}

} // verus!

//! A small map from byte strings to values, kept in insertion order.
use vstd::prelude::*;
use crate::scan::bytes_eq;

verus! {

/// `i` is the first entry of `es` whose key is `k`.
pub open spec fn key_at<'a, V>(es: Seq<(&'a [u8], V)>, k: Seq<u8>, i: int) -> bool {
    &&& 0 <= i < es.len()
    &&& es[i].0@ == k
    &&& forall|j: int| 0 <= j < i ==> (#[trigger] es[j]).0@ != k
}

/// The value of the first entry of `es` whose key is `k`.
pub open spec fn lookup<'a, V>(es: Seq<(&'a [u8], V)>, k: Seq<u8>) -> Option<V> {
    if exists|i: int| key_at(es, k, i) {
        Some(es[choose|i: int| key_at(es, k, i)].1)
    } else {
        None
    }
}

/// The first entry with a key is the one [`lookup`] reads.
pub proof fn lemma_key_at<'a, V>(es: Seq<(&'a [u8], V)>, k: Seq<u8>, i: int)
    requires
        key_at(es, k, i),
    ensures
        lookup(es, k) == Some(es[i].1),
{
    let j = choose|j: int| key_at(es, k, j);
    if j < i {
        assert(es[j].0@ != k);
    } else if i < j {
        assert(es[i].0@ != k);
    }
}

/// No entry has key `k`.
pub proof fn lemma_no_key<'a, V>(es: Seq<(&'a [u8], V)>, k: Seq<u8>)
    requires
        forall|j: int| 0 <= j < es.len() ==> (#[trigger] es[j]).0@ != k,
    ensures
        lookup(es, k) is None,
{
}

/// A map from byte strings to values.
pub struct BytesMap<'a, V> {
    entries: Vec<(&'a [u8], V)>,
}

impl<'a, V> BytesMap<'a, V> {
    /// The entries, in the order in which their keys were first inserted.
    pub closed spec fn entries(&self) -> Seq<(&'a [u8], V)> {
        self.entries@
    }

    /// The value for key `k`.
    pub open spec fn get_spec(&self, k: Seq<u8>) -> Option<V> {
        lookup(self.entries(), k)
    }

    /// An empty map.
    pub fn new() -> (m: Self)
        ensures
            m.entries() == Seq::<(&'a [u8], V)>::empty(),
            forall|k: Seq<u8>| m.get_spec(k) is None,
    {
        BytesMap { entries: Vec::new() }
    }

    /// The number of entries.
    pub fn len(&self) -> (n: usize)
        ensures
            n == self.entries().len(),
    {
        self.entries.len()
    }

    /// The index of the entry with key `key`.
    pub fn position(&self, key: &[u8]) -> (res: Option<usize>)
        ensures
            match res {
                Some(i) => key_at(self.entries(), key@, i as int),
                None => forall|j: int|
                    0 <= j < self.entries().len() ==> (#[trigger] self.entries()[j]).0@ != key@,
            },
    {
        let mut i: usize = 0;
        while i < self.entries.len()
            invariant
                i <= self.entries@.len(),
                forall|j: int| 0 <= j < i ==> (#[trigger] self.entries@[j]).0@ != key@,
            decreases self.entries@.len() - i,
        {
            if bytes_eq(self.entries[i].0, key) {
                return Some(i);
            }
            i = i + 1;
        }
        None
    }

    /// The value for `key`.
    pub fn get(&self, key: &[u8]) -> (res: Option<&V>)
        ensures
            match res {
                Some(v) => self.get_spec(key@) == Some(*v),
                None => self.get_spec(key@) is None,
            },
    {
        match self.position(key) {
            Some(i) => {
                proof {
                    lemma_key_at(self.entries(), key@, i as int);
                }
                Some(&self.entries[i].1)
            },
            None => None,
        }
    }

    /// The value for `key`, to be changed in place; no other entry changes.
    pub fn get_mut(&mut self, key: &[u8]) -> (res: Option<&mut V>)
        ensures
            match res {
                Some(v) => {
                    &&& old(self).get_spec(key@) == Some(*v)
                    &&& exists|i: int|
                        key_at(old(self).entries(), key@, i) && final(self).entries() == old(
                            self,
                        ).entries().update(i, (old(self).entries()[i].0, *final(v)))
                },
                None => old(self).get_spec(key@) is None && *final(self) == *old(self),
            },
            res matches Some(v) ==> forall|k: Seq<u8>|
                #[trigger] final(self).get_spec(k) == if k == key@ {
                    Some(*final(v))
                } else {
                    old(self).get_spec(k)
                },
    {
        match self.position(key) {
            Some(i) => {
                proof {
                    lemma_key_at(self.entries(), key@, i as int);
                }
                let ghost es0 = self.entries@;
                let entry = &mut self.entries[i];
                let r = &mut entry.1;
                proof {
                    lemma_lookup_update(es0, key@, i as int, *final(r));
                }
                Some(r)
            },
            None => None,
        }
    }

    /// Sets the value for `key` and returns the value it replaces.
    pub fn insert(&mut self, key: &'a [u8], value: V) -> (res: Option<V>)
        ensures
            res == old(self).get_spec(key@),
            final(self).get_spec(key@) == Some(value),
            forall|k: Seq<u8>| k != key@ ==> #[trigger] final(self).get_spec(k) == old(self).get_spec(k),
    {
        let ghost es0 = self.entries@;
        match self.position(key) {
            Some(i) => {
                proof {
                    lemma_key_at(es0, key@, i as int);
                }
                let mut slot = (key, value);
                self.entries.set_and_swap(i, &mut slot);
                let ghost es1 = self.entries@;
                proof {
                    assert(key_at(es1, key@, i as int));
                    lemma_key_at(es1, key@, i as int);
                    assert forall|k: Seq<u8>| k != key@ implies #[trigger] lookup(es1, k) == lookup(
                        es0,
                        k,
                    ) by {
                        if exists|j: int| key_at(es0, k, j) {
                            let j = choose|j: int| key_at(es0, k, j);
                            assert(j != i);
                            assert(key_at(es1, k, j));
                            lemma_key_at(es0, k, j);
                            lemma_key_at(es1, k, j);
                        } else {
                            assert forall|j: int| !key_at(es1, k, j) by {
                                if key_at(es1, k, j) {
                                    assert forall|p: int| 0 <= p < j implies (#[trigger] es0[p]).0@
                                        != k by {
                                        assert(es1[p].0@ != k);
                                    }
                                    assert(key_at(es0, k, j));
                                }
                            }
                        }
                    }
                }
                Some(slot.1)
            },
            None => {
                self.entries.push((key, value));
                let ghost es1 = self.entries@;
                proof {
                    lemma_no_key(es0, key@);
                    let n = es0.len() as int;
                    assert(key_at(es1, key@, n));
                    lemma_key_at(es1, key@, n);
                    assert forall|k: Seq<u8>| k != key@ implies #[trigger] lookup(es1, k) == lookup(
                        es0,
                        k,
                    ) by {
                        if exists|j: int| key_at(es0, k, j) {
                            let j = choose|j: int| key_at(es0, k, j);
                            assert(key_at(es1, k, j));
                            lemma_key_at(es0, k, j);
                            lemma_key_at(es1, k, j);
                        } else {
                            assert forall|j: int| 0 <= j < es1.len() implies (#[trigger] es1[j]).0@
                                != k by {
                                if es1[j].0@ == k && j < n {
                                    lemma_first(es0, k, j);
                                }
                            }
                        }
                    }
                }
                None
            },
        }
    }
}

/// Replacing the value of the first entry with key `k` changes the value for `k` only.
pub proof fn lemma_lookup_update<'a, V>(es: Seq<(&'a [u8], V)>, k: Seq<u8>, i: int, v: V)
    requires
        key_at(es, k, i),
    ensures
        forall|k2: Seq<u8>|
            #[trigger] lookup(es.update(i, (es[i].0, v)), k2) == if k2 == k {
                Some(v)
            } else {
                lookup(es, k2)
            },
{
    let es1 = es.update(i, (es[i].0, v));
    assert forall|k2: Seq<u8>| #[trigger] lookup(es1, k2) == if k2 == k {
        Some(v)
    } else {
        lookup(es, k2)
    } by {
        assert forall|j: int| key_at(es1, k2, j) <==> key_at(es, k2, j) by {
            if key_at(es1, k2, j) {
                assert forall|p: int| 0 <= p < j implies (#[trigger] es[p]).0@ != k2 by {
                    assert(es1[p].0@ != k2);
                }
            }
            if key_at(es, k2, j) {
                assert forall|p: int| 0 <= p < j implies (#[trigger] es1[p]).0@ != k2 by {
                    assert(es[p].0@ != k2);
                }
            }
        }
        if k2 == k {
            assert(key_at(es1, k, i));
            lemma_key_at(es1, k, i);
        } else if exists|j: int| key_at(es, k2, j) {
            let j = choose|j: int| key_at(es, k2, j);
            assert(key_at(es1, k2, j));
            lemma_key_at(es, k2, j);
            lemma_key_at(es1, k2, j);
        }
    }
}

/// A key present somewhere has a first occurrence.
pub proof fn lemma_first<'a, V>(es: Seq<(&'a [u8], V)>, k: Seq<u8>, j: int)
    requires
        0 <= j < es.len(),
        es[j].0@ == k,
    ensures
        exists|m: int| key_at(es, k, m),
    decreases j,
{
    if exists|p: int| 0 <= p < j && es[p].0@ == k {
        let p = choose|p: int| 0 <= p < j && es[p].0@ == k;
        lemma_first(es, k, p);
    } else {
        assert(key_at(es, k, j));
    }
}

} // verus!

//! A map keyed by strings that keeps its keys in sorted order.
//!
//! Iteration follows key order, the way `BTreeMap<String, _>` iterates, so
//! every "first entry that matches" decision made over it is deterministic.

use vstd::prelude::*;
use crate::text::{chars_less, lemma_chars_less_asymmetric, lemma_chars_less_irreflexive, lemma_chars_less_total, lemma_chars_less_transitive, same_text, text_less};

verus! {

/// Keys are distinct and strictly increasing.
pub open spec fn keys_sorted<V>(e: Seq<(String, V)>) -> bool {
    forall|i: int, j: int| 0 <= i < j < e.len() ==> chars_less(#[trigger] e[i].0@, #[trigger] e[j].0@)
}

/// True when some entry has key `k`.
pub open spec fn has_key<V>(e: Seq<(String, V)>, k: Seq<char>) -> bool {
    exists|i: int| 0 <= i < e.len() && #[trigger] e[i].0@ == k
}

/// The map a list of entries with distinct keys describes.
pub open spec fn map_of<V>(e: Seq<(String, V)>) -> Map<Seq<char>, V> {
    Map::new(|k: Seq<char>| has_key(e, k), |k: Seq<char>| e[index_for(e, k)].1)
}

/// An index whose key is `k`, when there is one.
pub open spec fn index_for<V>(e: Seq<(String, V)>, k: Seq<char>) -> int {
    choose|i: int| 0 <= i < e.len() && #[trigger] e[i].0@ == k
}

/// With sorted keys, the entry at index `i` is what the map holds under its key.
pub proof fn lemma_map_of_index<V>(e: Seq<(String, V)>, i: int)
    requires
        keys_sorted(e),
        0 <= i < e.len(),
    ensures
        map_of(e).contains_key(e[i].0@),
        map_of(e)[e[i].0@] == e[i].1,
{
    let k = e[i].0@;
    assert(has_key(e, k));
    let j = index_for(e, k);
    assert(map_of(e)[k] == e[j].1);
    if j != i {
        if j < i {
            assert(chars_less(e[j].0@, e[i].0@));
        } else {
            assert(chars_less(e[i].0@, e[j].0@));
        }
        lemma_chars_less_irreflexive(k);
    }
}

/// A sorted string-keyed map.
#[derive(Debug)]
pub struct StrMap<V> {
    entries: Vec<(String, V)>,
}

impl<V> StrMap<V> {
    /// The entries, in key order.
    pub closed spec fn entries(&self) -> Seq<(String, V)> {
        self.entries@
    }

    /// The map these entries describe.
    pub open spec fn as_map(&self) -> Map<Seq<char>, V> {
        map_of(self.entries())
    }

    /// Keys are sorted and distinct.
    pub closed spec fn wf(&self) -> bool {
        keys_sorted(self.entries@)
    }

    /// An empty map.
    pub fn new() -> (m: Self)
        ensures
            m.wf(),
            m.entries().len() == 0,
            m.as_map() == Map::<Seq<char>, V>::empty(),
    {
        assert(map_of(Seq::<(String, V)>::empty()) =~= Map::<Seq<char>, V>::empty());
        StrMap { entries: Vec::new() }
    }

    /// Number of entries.
    pub fn len(&self) -> (n: usize)
        ensures
            n == self.entries().len(),
    {
        self.entries.len()
    }

    /// The key of entry `i`.
    pub fn key_at(&self, i: usize) -> (k: &String)
        requires
            i < self.entries().len(),
        ensures
            *k == self.entries()[i as int].0,
    {
        &self.entries[i].0
    }

    /// The value of entry `i`.
    pub fn value_at(&self, i: usize) -> (v: &V)
        requires
            i < self.entries().len(),
        ensures
            *v == self.entries()[i as int].1,
    {
        &self.entries[i].1
    }

    /// Index of the entry whose key is `key`, if there is one.
    pub fn position(&self, key: &str) -> (r: Option<usize>)
        requires
            self.wf(),
        ensures
            r matches Some(i) ==> i < self.entries().len() && self.entries()[i as int].0@ == key@,
            r is None ==> !has_key(self.entries(), key@),
    {
        let mut i: usize = 0;
        while i < self.entries.len()
            invariant
                i <= self.entries@.len(),
                forall|j: int| 0 <= j < i ==> #[trigger] self.entries@[j].0@ != key@,
            decreases self.entries@.len() - i,
        {
            if same_text(self.entries[i].0.as_str(), key) {
                return Some(i);
            }
            i += 1;
        }
        None
    }

    /// The value stored under `key`.
    pub fn get(&self, key: &str) -> (r: Option<&V>)
        requires
            self.wf(),
        ensures
            r is None <==> !has_key(self.entries(), key@),
            r is None <==> !self.as_map().contains_key(key@),
            r matches Some(v) ==> exists|i: int|
                0 <= i < self.entries().len() && #[trigger] self.entries()[i].0@ == key@
                    && self.entries()[i].1 == *v,
            r matches Some(v) ==> self.as_map()[key@] == *v,
    {
        match self.position(key) {
            Some(i) => {
                proof { lemma_map_of_index(self.entries@, i as int); }
                Some(&self.entries[i].1)
            },
            None => None,
        }
    }

    /// Stores `value` under `key`, replacing any value already there and
    /// otherwise inserting a new entry at its sorted position.
    pub fn insert(&mut self, key: String, value: V)
        requires
            old(self).wf(),
        ensures
            final(self).wf(),
            final(self).as_map() == old(self).as_map().insert(key@, value),
            has_key(old(self).entries(), key@) ==> exists|p: int|
                0 <= p < old(self).entries().len() && #[trigger] old(self).entries()[p].0@ == key@
                    && final(self).entries() == old(self).entries().update(p, (key, value)),
            !has_key(old(self).entries(), key@) ==> exists|p: int|
                0 <= p <= old(self).entries().len()
                    && #[trigger] final(self).entries() == old(self).entries().insert(p, (key, value)),
    {
        let ghost old_e = self.entries@;
        let mut i: usize = 0;
        while i < self.entries.len() && text_less(self.entries[i].0.as_str(), key.as_str())
            invariant
                i <= self.entries@.len(),
                self.entries@ == old_e,
                keys_sorted(old_e),
                forall|j: int| 0 <= j < i ==> chars_less(#[trigger] old_e[j].0@, key@),
            decreases self.entries@.len() - i,
        {
            i += 1;
        }
        proof {
            assert forall|j: int| 0 <= j < i implies #[trigger] old_e[j].0@ != key@ by {
                lemma_chars_less_irreflexive(key@);
            }
        }
        if i < self.entries.len() && same_text(self.entries[i].0.as_str(), key.as_str()) {
            proof {
                assert forall|j: int| 0 <= j < old_e.len() && j != i implies #[trigger] old_e[j].0@
                    != key@ by {
                    if j > i {
                        assert(chars_less(old_e[i as int].0@, old_e[j].0@));
                        lemma_chars_less_irreflexive(key@);
                    }
                }
            }
            self.entries.set(i, (key, value));
            proof {
                let e = self.entries@;
                assert forall|a: int, b: int| 0 <= a < b < e.len() implies chars_less(
                    #[trigger] e[a].0@,
                    #[trigger] e[b].0@,
                ) by {
                    assert(old_e[a].0@ == e[a].0@ || a == i);
                    assert(old_e[b].0@ == e[b].0@ || b == i);
                }
                assert(old_e[i as int].0@ == key@);
                lemma_map_update(old_e, i as int, key, value);
            }
        } else {
            proof {
                if i < old_e.len() {
                    lemma_chars_less_total(old_e[i as int].0@, key@);
                }
                assert forall|j: int| 0 <= j < old_e.len() implies #[trigger] old_e[j].0@ != key@ by {
                    if j > i {
                        assert(chars_less(old_e[i as int].0@, old_e[j].0@));
                        lemma_chars_less_asymmetric(key@, old_e[i as int].0@);
                        if old_e[j].0@ == key@ {
                            lemma_chars_less_asymmetric(old_e[i as int].0@, key@);
                        }
                    }
                }
            }
            self.entries.insert(i, (key, value));
            proof {
                let e = self.entries@;
                assert(e == old_e.insert(i as int, (key, value)));
                assert forall|a: int, b: int| 0 <= a < b < e.len() implies chars_less(
                    #[trigger] e[a].0@,
                    #[trigger] e[b].0@,
                ) by {
                    if a < i && b < i {
                        assert(e[a] == old_e[a] && e[b] == old_e[b]);
                    } else if a < i && b == i {
                    } else if a < i {
                        assert(e[a] == old_e[a] && e[b] == old_e[b - 1]);
                        if i < old_e.len() {
                            lemma_chars_less_total(old_e[i as int].0@, key@);
                            lemma_chars_less_transitive(old_e[a].0@, key@, old_e[i as int].0@);
                            if b - 1 > i {
                                lemma_chars_less_transitive(
                                    old_e[a].0@,
                                    old_e[i as int].0@,
                                    old_e[b - 1].0@,
                                );
                            }
                        }
                    } else if a == i {
                        assert(e[b] == old_e[b - 1]);
                        lemma_chars_less_total(old_e[i as int].0@, key@);
                        if b - 1 > i {
                            lemma_chars_less_transitive(
                                key@,
                                old_e[i as int].0@,
                                old_e[b - 1].0@,
                            );
                        }
                    } else {
                        assert(e[a] == old_e[a - 1] && e[b] == old_e[b - 1]);
                    }
                }
                lemma_map_insert(old_e, i as int, key, value);
            }
        }
    }
}

proof fn lemma_map_update<V>(e: Seq<(String, V)>, p: int, key: String, value: V)
    requires
        keys_sorted(e),
        keys_sorted(e.update(p, (key, value))),
        0 <= p < e.len(),
        e[p].0@ == key@,
    ensures
        map_of(e.update(p, (key, value))) == map_of(e).insert(key@, value),
{
    let n = e.update(p, (key, value));
    assert forall|k: Seq<char>| #[trigger] has_key(n, k) == (has_key(e, k) || k == key@) by {
        if has_key(e, k) {
            let i = choose|i: int| 0 <= i < e.len() && #[trigger] e[i].0@ == k;
            assert(n[i].0@ == k);
        }
        if has_key(n, k) {
            let i = choose|i: int| 0 <= i < n.len() && #[trigger] n[i].0@ == k;
            assert(e[i].0@ == k);
        }
        if k == key@ {
            assert(n[p].0@ == k);
        }
    }
    assert forall|k: Seq<char>| #[trigger] map_of(n).contains_key(k) implies map_of(n)[k]
        == map_of(e).insert(key@, value)[k] by {
        let i = choose|i: int| 0 <= i < n.len() && #[trigger] n[i].0@ == k;
        lemma_map_of_index(n, i);
        if i != p && k == key@ {
            if i < p {
                assert(chars_less(n[i].0@, n[p].0@));
            } else {
                assert(chars_less(n[p].0@, n[i].0@));
            }
            lemma_chars_less_irreflexive(k);
        }
        if i != p {
            assert(n[i] == e[i]);
            lemma_map_of_index(e, i);
        }
    }
    assert(map_of(n) =~= map_of(e).insert(key@, value));
}

proof fn lemma_map_insert<V>(e: Seq<(String, V)>, p: int, key: String, value: V)
    requires
        keys_sorted(e),
        keys_sorted(e.insert(p, (key, value))),
        0 <= p <= e.len(),
    ensures
        map_of(e.insert(p, (key, value))) == map_of(e).insert(key@, value),
{
    let n = e.insert(p, (key, value));
    assert forall|k: Seq<char>| #[trigger] has_key(n, k) == (has_key(e, k) || k == key@) by {
        if has_key(e, k) {
            let i = choose|i: int| 0 <= i < e.len() && #[trigger] e[i].0@ == k;
            if i < p {
                assert(n[i].0@ == k);
            } else {
                assert(n[i + 1].0@ == k);
            }
        }
        if has_key(n, k) {
            let i = choose|i: int| 0 <= i < n.len() && #[trigger] n[i].0@ == k;
            if i < p {
                assert(e[i].0@ == k);
            } else if i > p {
                assert(e[i - 1].0@ == k);
            }
        }
        if k == key@ {
            assert(n[p].0@ == k);
        }
    }
    assert forall|k: Seq<char>| #[trigger] map_of(n).contains_key(k) implies map_of(n)[k]
        == map_of(e).insert(key@, value)[k] by {
        let i = choose|i: int| 0 <= i < n.len() && #[trigger] n[i].0@ == k;
        lemma_map_of_index(n, i);
        if i != p && k == key@ {
            if i < p {
                assert(chars_less(n[i].0@, n[p].0@));
            } else {
                assert(chars_less(n[p].0@, n[i].0@));
            }
            lemma_chars_less_irreflexive(k);
        }
        if i < p {
            assert(n[i] == e[i]);
            lemma_map_of_index(e, i);
        } else if i > p {
            assert(n[i] == e[i - 1]);
            lemma_map_of_index(e, i - 1);
        }
    }
    assert(map_of(n) =~= map_of(e).insert(key@, value));
}


impl<V: Copy> StrMap<V> {
    /// A copy of the map, entry for entry.
    pub fn copy(&self) -> (r: Self)
        ensures
            r.entries() == self.entries(),
            r.wf() == self.wf(),
    {
        let mut out: Vec<(String, V)> = Vec::new();
        let mut i: usize = 0;
        while i < self.entries.len()
            invariant
                i <= self.entries@.len(),
                out@ == self.entries@.take(i as int),
            decreases self.entries@.len() - i,
        {
            let key = self.entries[i].0.clone();
            let value = self.entries[i].1;
            out.push((key, value));
            assert(out@ =~= self.entries@.take(i + 1));
            i += 1;
        }
        assert(self.entries@.take(i as int) =~= self.entries@);
        StrMap { entries: out }
    }
}

} // verus!

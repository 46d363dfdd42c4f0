//! A small map from names to values, kept in insertion order.
//!
//! Inserting a name that is already present replaces its value in place, so a
//! name occurs at most once and a lookup sees the latest value.
use crate::text::chars_eq;
use vstd::prelude::*;

verus! {

/// `i` is the first entry of `es` whose key is `k`.
pub open spec fn first_key<V>(es: Seq<(Vec<char>, V)>, k: Seq<char>, i: int) -> bool {
    &&& 0 <= i < es.len()
    &&& es[i].0@ == k
    &&& forall|j: int| 0 <= j < i ==> (#[trigger] es[j]).0@ != k
}

/// The value stored under `k`, if any.
pub open spec fn assoc<V>(es: Seq<(Vec<char>, V)>, k: Seq<char>) -> Option<V> {
    if exists|i: int| first_key(es, k, i) {
        Some(es[choose|i: int| first_key(es, k, i)].1)
    } else {
        None
    }
}

pub proof fn lemma_first_key_unique<V>(es: Seq<(Vec<char>, V)>, k: Seq<char>, i: int)
    requires
        first_key(es, k, i),
    ensures
        assoc(es, k) == Some(es[i].1),
{
    let c = choose|i: int| first_key(es, k, i);
    assert(first_key(es, k, c));
    if c < i {
        assert(es[c].0@ != k);
    } else if i < c {
        assert(es[i].0@ != k);
    }
}

pub proof fn lemma_no_key<V>(es: Seq<(Vec<char>, V)>, k: Seq<char>)
    requires
        forall|j: int| 0 <= j < es.len() ==> (#[trigger] es[j]).0@ != k,
    ensures
        assoc(es, k) is None,
{
}

/// Names mapped to values; see the module documentation.
pub struct StrMap<V> {
    entries: Vec<(Vec<char>, V)>,
}

impl<V> StrMap<V> {
    /// The value stored under `k`, if any.
    pub closed spec fn get_spec(&self, k: Seq<char>) -> Option<V> {
        assoc(self.entries@, k)
    }

    /// The names, in the order they were first inserted.
    pub closed spec fn keys(&self) -> Seq<Seq<char>> {
        self.entries@.map_values(|e: (Vec<char>, V)| e.0@)
    }

    pub fn new() -> (m: Self)
        ensures
            forall|k: Seq<char>| m.get_spec(k) is None,
            m.keys().len() == 0,
    {
        StrMap { entries: Vec::new() }
    }

    /// Position of `k` among the entries.
    fn position(&self, k: &[char]) -> (r: Option<usize>)
        ensures
            match r {
                Some(i) => first_key(self.entries@, k@, i as int),
                None => forall|j: int|
                    0 <= j < self.entries@.len() ==> (#[trigger] self.entries@[j]).0@ != k@,
            },
    {
        let mut i: usize = 0;
        while i < self.entries.len()
            invariant
                0 <= i <= self.entries@.len(),
                forall|j: int| 0 <= j < i ==> (#[trigger] self.entries@[j]).0@ != k@,
            decreases self.entries@.len() - i,
        {
            if chars_eq(self.entries[i].0.as_slice(), k) {
                return Some(i);
            }
            i = i + 1;
        }
        None
    }

    /// The value stored under `k`.
    pub fn get(&self, k: &[char]) -> (r: Option<&V>)
        ensures
            match r {
                Some(v) => self.get_spec(k@) == Some(*v),
                None => self.get_spec(k@) is None,
            },
    {
        match self.position(k) {
            Some(i) => {
                proof {
                    lemma_first_key_unique(self.entries@, k@, i as int);
                }
                Some(&self.entries[i].1)
            },
            None => {
                proof {
                    lemma_no_key(self.entries@, k@);
                }
                None
            },
        }
    }

    /// Whether a value is stored under `k`.
    pub fn contains_key(&self, k: &[char]) -> (b: bool)
        ensures
            b == self.get_spec(k@) is Some,
    {
        self.get(k).is_some()
    }

    /// Stores `v` under `k`, replacing any earlier value.
    pub fn insert(&mut self, k: Vec<char>, v: V)
        ensures
            final(self).get_spec(k@) == Some(v),
            forall|o: Seq<char>| o != k@ ==> final(self).get_spec(o) == old(self).get_spec(o),
    {
        let ghost es0 = self.entries@;
        match self.position(k.as_slice()) {
            Some(i) => {
                let ghost key = k@;
                self.entries.set(i, (k, v));
                proof {
                    let es = self.entries@;
                    assert(first_key(es, key, i as int));
                    lemma_first_key_unique(es, key, i as int);
                    assert forall|o: Seq<char>| o != key implies assoc(es, o) == assoc(es0, o) by {
                        if exists|j: int| first_key(es0, o, j) {
                            let j = choose|j: int| first_key(es0, o, j);
                            assert(es[j] == es0[j]);
                            assert(first_key(es, o, j));
                            lemma_first_key_unique(es, o, j);
                            lemma_first_key_unique(es0, o, j);
                        } else {
                            assert forall|j: int| 0 <= j < es.len() implies (#[trigger] es[j]).0@
                                != o by {
                                if es[j].0@ == o {
                                    assert(j != i);
                                    assert(es0[j] == es[j]);
                                    lemma_least_key(es0, o, j);
                                }
                            }
                        }
                    }
                }
            },
            None => {
                let ghost key = k@;
                self.entries.push((k, v));
                proof {
                    let es = self.entries@;
                    let n = es0.len() as int;
                    assert(first_key(es, key, n));
                    lemma_first_key_unique(es, key, n);
                    assert forall|o: Seq<char>| o != key implies assoc(es, o) == assoc(es0, o) by {
                        if exists|j: int| first_key(es0, o, j) {
                            let j = choose|j: int| first_key(es0, o, j);
                            assert(first_key(es, o, j));
                            lemma_first_key_unique(es, o, j);
                            lemma_first_key_unique(es0, o, j);
                        } else {
                            assert forall|j: int| 0 <= j < es.len() implies (#[trigger] es[j]).0@
                                != o by {
                                if j < n && es[j].0@ == o {
                                    lemma_least_key(es0, o, j);
                                }
                            }
                        }
                    }
                }
            },
        }
    }
}

/// If some entry has key `k`, there is a first one.
pub proof fn lemma_least_key<V>(es: Seq<(Vec<char>, V)>, k: Seq<char>, j: int)
    requires
        0 <= j < es.len(),
        es[j].0@ == k,
    ensures
        exists|i: int| first_key(es, k, i),
    decreases j,
{
    if forall|m: int| 0 <= m < j ==> (#[trigger] es[m]).0@ != k {
        assert(first_key(es, k, j));
    } else {
        let m = choose|m: int| 0 <= m < j && (#[trigger] es[m]).0@ == k;
        lemma_least_key(es, k, m);
    }
}

} // verus!

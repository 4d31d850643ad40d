//! A small map keyed by strings that keeps its entries in insertion order.
//! Inserting a key that is already present replaces its value in place.
use vstd::prelude::*;

verus! {

/// Position of the first entry with key `k`, searching the first `n` entries.
pub open spec fn key_index_upto<W>(s: Seq<(Seq<char>, W)>, k: Seq<char>, n: int) -> Option<int>
    decreases n,
{
    if n <= 0 {
        None
    } else {
        match key_index_upto(s, k, n - 1) {
            Some(i) => Some(i),
            None => if s[n - 1].0 == k {
                Some(n - 1)
            } else {
                None
            },
        }
    }
}

/// Position of the entry with key `k`, if there is one.
pub open spec fn key_index<W>(s: Seq<(Seq<char>, W)>, k: Seq<char>) -> Option<int> {
    key_index_upto(s, k, s.len() as int)
}

/// The value stored under `k`.
pub open spec fn map_get<W>(s: Seq<(Seq<char>, W)>, k: Seq<char>) -> Option<W> {
    match key_index(s, k) {
        Some(i) => Some(s[i].1),
        None => None,
    }
}

/// Inserting `k` ↦ `v`: an existing entry keeps its place and takes the new value,
/// a new key goes to the end.
pub open spec fn map_insert<W>(s: Seq<(Seq<char>, W)>, k: Seq<char>, v: W) -> Seq<(Seq<char>, W)> {
    match key_index(s, k) {
        Some(i) => s.update(i, (k, v)),
        None => s.push((k, v)),
    }
}

/// Removing `k`: its entry goes, the others keep their order.
pub open spec fn map_remove<W>(s: Seq<(Seq<char>, W)>, k: Seq<char>) -> Seq<(Seq<char>, W)> {
    match key_index(s, k) {
        Some(i) => s.remove(i),
        None => s,
    }
}

/// No key occurs twice.
pub open spec fn keys_distinct<W>(s: Seq<(Seq<char>, W)>) -> bool {
    forall|i: int, j: int| 0 <= i < j < s.len() ==> s[i].0 != s[j].0
}

pub proof fn lemma_key_index_upto<W>(s: Seq<(Seq<char>, W)>, k: Seq<char>, n: int)
    requires
        0 <= n <= s.len(),
    ensures
        key_index_upto(s, k, n) matches Some(i) ==> 0 <= i < n && s[i].0 == k && forall|
            j: int,
        | 0 <= j < i ==> s[j].0 != k,
        key_index_upto(s, k, n) is None ==> forall|j: int| 0 <= j < n ==> s[j].0 != k,
    decreases n,
{
    if n > 0 {
        lemma_key_index_upto(s, k, n - 1);
    }
}

pub proof fn lemma_key_index<W>(s: Seq<(Seq<char>, W)>, k: Seq<char>)
    ensures
        key_index(s, k) matches Some(i) ==> 0 <= i < s.len() && s[i].0 == k && forall|j: int|
            0 <= j < i ==> s[j].0 != k,
        key_index(s, k) is None ==> forall|j: int| 0 <= j < s.len() ==> s[j].0 != k,
{
    lemma_key_index_upto(s, k, s.len() as int);
}

/// After inserting `k` ↦ `v`, looking `k` up gives `v`, and every other key is unaffected.
pub proof fn lemma_get_after_insert<W>(s: Seq<(Seq<char>, W)>, k: Seq<char>, v: W, k2: Seq<char>)
    ensures
        map_get(map_insert(s, k, v), k2) == if k2 == k {
            Some(v)
        } else {
            map_get(s, k2)
        },
{
    let t = map_insert(s, k, v);
    lemma_key_index(s, k);
    lemma_key_index(s, k2);
    lemma_key_index(t, k2);
    match key_index(s, k) {
        Some(i) => {
            assert(t.len() == s.len());
            if k2 == k {
                assert(t[i].0 == k);
            } else {
                match key_index(s, k2) {
                    Some(j) => {
                        assert(t[j].0 == k2);
                    },
                    None => {
                        assert(forall|j: int| 0 <= j < t.len() ==> t[j].0 != k2);
                    },
                }
            }
        },
        None => {
            if k2 == k {
                assert(t[s.len() as int].0 == k);
            } else {
                match key_index(s, k2) {
                    Some(j) => {
                        assert(t[j].0 == k2);
                    },
                    None => {
                        assert(forall|j: int| 0 <= j < t.len() ==> t[j].0 != k2);
                    },
                }
            }
        },
    }
}

/// Insertion keeps keys distinct.
pub proof fn lemma_insert_keeps_distinct<W>(s: Seq<(Seq<char>, W)>, k: Seq<char>, v: W)
    requires
        keys_distinct(s),
    ensures
        keys_distinct(map_insert(s, k, v)),
{
    lemma_key_index(s, k);
}

/// A map from strings to values, in insertion order.
#[derive(Clone, Debug)]
pub struct StrMap<V> {
    entries: Vec<(String, V)>,
}

impl<V: View> View for StrMap<V> {
    type V = Seq<(Seq<char>, V::V)>;

    closed spec fn view(&self) -> Seq<(Seq<char>, V::V)> {
        Seq::new(self.entries@.len(), |i: int| (self.entries@[i].0@, self.entries@[i].1@))
    }
}

impl<V: View> StrMap<V> {
    /// An empty map.
    pub fn new() -> (m: Self)
        ensures
            m@ == Seq::<(Seq<char>, V::V)>::empty(),
    {
        let m = StrMap { entries: Vec::new() };
        assert(m@ =~= Seq::<(Seq<char>, V::V)>::empty());
        m
    }

    /// Number of entries.
    pub fn len(&self) -> (n: usize)
        ensures
            n == self@.len(),
    {
        self.entries.len()
    }

    /// The key of the `i`-th entry.
    pub fn key_at(&self, i: usize) -> (k: &String)
        requires
            i < self@.len(),
        ensures
            k@ == self@[i as int].0,
    {
        &self.entries[i].0
    }

    /// The value of the `i`-th entry.
    pub fn value_at(&self, i: usize) -> (v: &V)
        requires
            i < self@.len(),
        ensures
            v@ == self@[i as int].1,
    {
        &self.entries[i].1
    }

    fn find(&self, key: &String) -> (r: Option<usize>)
        ensures
            r matches Some(i) ==> key_index(self@, key@) == Some(i as int),
            r is None ==> key_index(self@, key@) is None,
    {
        let mut i: usize = 0;
        while i < self.entries.len()
            invariant
                i <= self@.len(),
                forall|j: int| 0 <= j < i ==> self@[j].0 != key@,
            decreases self@.len() - i,
        {
            if self.entries[i].0 == *key {
                proof {
                    assert(self@[i as int].0 == key@);
                    lemma_key_index(self@, key@);
                    if let Some(i2) = key_index(self@, key@) {
                        if i2 < i {
                            assert(self@[i2].0 != key@);
                        }
                    }
                }
                return Some(i);
            }
            assert(self@[i as int].0 != key@);
            i = i + 1;
        }
        proof {
            lemma_key_index(self@, key@);
        }
        None
    }

    /// The value stored under `key`.
    pub fn get(&self, key: &str) -> (r: Option<&V>)
        ensures
            match r {
                Some(v) => map_get(self@, key@) == Some(v@),
                None => map_get(self@, key@) is None,
            },
    {
        let k = key.to_owned();
        match self.find(&k) {
            Some(i) => {
                proof {
                    lemma_key_index(self@, k@);
                }
                Some(&self.entries[i].1)
            },
            None => None,
        }
    }

    /// Removes the entry of `key`, if there is one.
    pub fn remove(&mut self, key: &String)
        ensures
            final(self)@ == map_remove(old(self)@, key@),
    {
        match self.find(key) {
            Some(i) => {
                proof {
                    lemma_key_index(self@, key@);
                }
                self.entries.remove(i);
                assert(self@ =~= old(self)@.remove(i as int));
            },
            None => {},
        }
    }

    /// Stores `value` under `key`, replacing the value already stored there.
    pub fn insert(&mut self, key: String, value: V)
        ensures
            final(self)@ == map_insert(old(self)@, key@, value@),
    {
        match self.find(&key) {
            Some(i) => {
                proof {
                    lemma_key_index(self@, key@);
                }
                let ghost k = key@;
                let ghost w = value@;
                self.entries.set(i, (key, value));
                assert(self@ =~= old(self)@.update(i as int, (k, w)));
            },
            None => {
                let ghost k = key@;
                let ghost w = value@;
                self.entries.push((key, value));
                assert(self@ =~= old(self)@.push((k, w)));
            },
        }
    }
}

} // verus!

//! A map from strings to values that remembers the order in which its keys
//! first came.

use vstd::hash_map::StringHashMap;
use vstd::prelude::*;

verus! {

/// Whether no key occurs twice in `es`.
pub open spec fn distinct_keys<V>(es: Seq<(Seq<char>, V)>) -> bool {
    forall|i: int, j: int|
        0 <= i < es.len() && 0 <= j < es.len() && i != j ==> (#[trigger] es[i]).0 != (
        #[trigger] es[j]).0
}

/// Whether `es` has an entry for the key `k`.
pub open spec fn has_key<V>(es: Seq<(Seq<char>, V)>, k: Seq<char>) -> bool {
    exists|i: int| 0 <= i < es.len() && (#[trigger] es[i]).0 == k
}

/// Where in `es` the key `k` stands, if it is there.
pub open spec fn find_key<V>(es: Seq<(Seq<char>, V)>, k: Seq<char>) -> Option<int> {
    if has_key(es, k) {
        Some(choose|i: int| 0 <= i < es.len() && (#[trigger] es[i]).0 == k)
    } else {
        None
    }
}

/// The value that `es` holds for the key `k`, if it holds one.
pub open spec fn lookup<V>(es: Seq<(Seq<char>, V)>, k: Seq<char>) -> Option<V> {
    match find_key(es, k) {
        Some(i) => Some(es[i].1),
        None => None,
    }
}

/// `es` with the value `v` for the key `k`: in the key's place if it is
/// there already, and else at the end.
pub open spec fn put<V>(es: Seq<(Seq<char>, V)>, k: Seq<char>, v: V) -> Seq<(Seq<char>, V)> {
    match find_key(es, k) {
        Some(i) => es.update(i, (k, v)),
        None => es.push((k, v)),
    }
}

/// Among distinct keys, a key is found where it stands.
pub proof fn lemma_find_key<V>(es: Seq<(Seq<char>, V)>, i: int)
    requires
        distinct_keys(es),
        0 <= i < es.len(),
    ensures
        find_key(es, es[i].0) == Some(i),
{
    assert(has_key(es, es[i].0));
}

/// Whether two lists of entries have the same keys in the same places.
pub open spec fn same_keys<V, W>(es: Seq<(Seq<char>, V)>, ms: Seq<(Seq<char>, W)>) -> bool {
    &&& es.len() == ms.len()
    &&& forall|i: int| 0 <= i < es.len() ==> (#[trigger] es[i]).0 == ms[i].0
}

/// Lists with the same keys find every key in the same place.
pub proof fn lemma_same_keys<V, W>(es: Seq<(Seq<char>, V)>, ms: Seq<(Seq<char>, W)>, k: Seq<char>)
    requires
        distinct_keys(es),
        same_keys(es, ms),
    ensures
        distinct_keys(ms),
        has_key(es, k) == has_key(ms, k),
        find_key(es, k) == find_key(ms, k),
{
    assert forall|i: int, j: int|
        0 <= i < ms.len() && 0 <= j < ms.len() && i != j implies (#[trigger] ms[i]).0 != (
    #[trigger] ms[j]).0 by {
        assert(es[i].0 == ms[i].0);
        assert(es[j].0 == ms[j].0);
    }
    if has_key(es, k) {
        let i = choose|i: int| 0 <= i < es.len() && (#[trigger] es[i]).0 == k;
        assert(ms[i].0 == k);
        lemma_find_key(es, i);
        lemma_find_key(ms, i);
    }
    if has_key(ms, k) {
        let i = choose|i: int| 0 <= i < ms.len() && (#[trigger] ms[i]).0 == k;
        assert(es[i].0 == k);
    }
}

/// A map from strings to values. Its entries stand in the order in which
/// their keys were first put.
pub struct Table<V> {
    keys: Vec<String>,
    values: Vec<V>,
    index: StringHashMap<usize>,
}

impl<V> Table<V> {
    /// The entries, each key with its value, in order.
    pub closed spec fn entries(&self) -> Seq<(Seq<char>, V)> {
        Seq::new(self.keys@.len(), |i: int| (self.keys@[i]@, self.values@[i]))
    }

    /// The index agrees with the entries.
    pub closed spec fn wf(&self) -> bool {
        &&& self.keys@.len() == self.values@.len()
        &&& forall|i: int|
            0 <= i < self.keys@.len() ==> self.index@.contains_key(#[trigger] self.keys@[i]@)
                && self.index@[self.keys@[i]@] == i
        &&& forall|k: Seq<char>| #[trigger]
            self.index@.contains_key(k) ==> self.index@[k] < self.keys@.len()
                && self.keys@[self.index@[k] as int]@ == k
    }

    /// No key occurs twice.
    pub proof fn lemma_distinct(&self)
        requires
            self.wf(),
        ensures
            distinct_keys(self.entries()),
    {
        let es = self.entries();
        assert forall|i: int, j: int|
            0 <= i < es.len() && 0 <= j < es.len() && i != j implies (#[trigger] es[i]).0 != (
        #[trigger] es[j]).0 by {
            assert(self.index@[self.keys@[i]@] == i);
            assert(self.index@[self.keys@[j]@] == j);
        }
    }

    /// The table without an entry.
    pub fn new() -> (t: Self)
        ensures
            t.wf(),
            t.entries() == Seq::<(Seq<char>, V)>::empty(),
    {
        let t = Table { keys: Vec::new(), values: Vec::new(), index: StringHashMap::new() };
        assert(t.entries() =~= Seq::<(Seq<char>, V)>::empty());
        t
    }

    /// The number of entries.
    pub fn len(&self) -> (n: usize)
        requires
            self.wf(),
        ensures
            n == self.entries().len(),
    {
        self.keys.len()
    }

    /// Whether there is no entry.
    pub fn is_empty(&self) -> (r: bool)
        requires
            self.wf(),
        ensures
            r == (self.entries().len() == 0),
    {
        self.keys.len() == 0
    }

    /// Where the key stands, if it is there.
    pub fn position(&self, key: &str) -> (r: Option<usize>)
        requires
            self.wf(),
        ensures
            match r {
                Some(i) => find_key(self.entries(), key@) == Some(i as int) && i
                    < self.entries().len(),
                None => find_key(self.entries(), key@) is None,
            },
    {
        let found = self.index.get(key);
        match found {
            Some(i) => {
                proof {
                    self.lemma_distinct();
                    assert(self.entries()[*i as int].0 == key@);
                    lemma_find_key(self.entries(), *i as int);
                }
                Some(*i)
            },
            None => {
                proof {
                    if has_key(self.entries(), key@) {
                        let j = choose|j: int|
                            0 <= j < self.entries().len() && (#[trigger] self.entries()[j]).0
                                == key@;
                        assert(self.index@.contains_key(self.keys@[j]@));
                    }
                }
                None
            },
        }
    }

    /// The value for the key, if there is one.
    pub fn get(&self, key: &str) -> (r: Option<&V>)
        requires
            self.wf(),
        ensures
            match r {
                Some(v) => lookup(self.entries(), key@) == Some(*v),
                None => lookup(self.entries(), key@) is None,
            },
    {
        match self.position(key) {
            Some(i) => Some(&self.values[i]),
            None => None,
        }
    }

    /// The key of entry `i`.
    pub fn key_at(&self, i: usize) -> (k: &String)
        requires
            self.wf(),
            i < self.entries().len(),
        ensures
            k@ == self.entries()[i as int].0,
    {
        &self.keys[i]
    }

    /// The value of entry `i`.
    pub fn value_at(&self, i: usize) -> (v: &V)
        requires
            self.wf(),
            i < self.entries().len(),
        ensures
            *v == self.entries()[i as int].1,
    {
        &self.values[i]
    }

    /// Puts `value` for `key`: in the key's place if it is there already,
    /// and else as a new last entry.
    pub fn insert(&mut self, key: String, value: V)
        requires
            old(self).wf(),
        ensures
            final(self).wf(),
            final(self).entries() == put(old(self).entries(), key@, value),
    {
        match self.position(key.as_str()) {
            Some(i) => {
                self.values.set(i, value);
                assert(self.entries() =~= put(old(self).entries(), key@, value));
            },
            None => {
                let i = self.keys.len();
                self.index.insert(key.clone(), i);
                self.keys.push(key);
                self.values.push(value);
                assert(self.entries() =~= put(old(self).entries(), key@, value));
                assert forall|j: int| 0 <= j < self.keys@.len() implies self.index@.contains_key(
                    #[trigger] self.keys@[j]@,
                ) && self.index@[self.keys@[j]@] == j by {
                    if j < i {
                        assert(old(self).keys@[j] == self.keys@[j]);
                        assert(old(self).index@.contains_key(old(self).keys@[j]@));
                        assert(old(self).entries()[j].0 == old(self).keys@[j]@);
                        assert(!has_key(old(self).entries(), key@));
                    }
                }
            },
        }
    }

    /// Replaces the value of entry `i`.
    pub fn set_value(&mut self, i: usize, value: V)
        requires
            old(self).wf(),
            i < old(self).entries().len(),
        ensures
            final(self).wf(),
            final(self).entries() == old(self).entries().update(
                i as int,
                (old(self).entries()[i as int].0, value),
            ),
    {
        self.values.set(i, value);
        assert(self.entries() =~= old(self).entries().update(
            i as int,
            (old(self).entries()[i as int].0, value),
        ));
    }
}

} // verus!

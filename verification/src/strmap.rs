//! A small map keyed by strings, kept as a list of entries.
//!
//! The map is viewed as a mathematical `Map` from the characters of a key to
//! the stored value. An insertion under a key that is already present
//! replaces the stored value, so every key is held once.

use vstd::prelude::*;

verus! {

/// A map from strings to values of type `V`.
#[derive(Debug)]
pub struct StringMap<V> {
    entries: Vec<(String, V)>,
}

/// The value of the first entry at or after `from` that is named `key`.
pub closed spec fn find<V>(entries: Seq<(String, V)>, key: Seq<char>, from: int) -> Option<V>
    decreases entries.len() - from,
{
    if from < 0 || from >= entries.len() {
        None
    } else if entries[from].0@ == key {
        Some(entries[from].1)
    } else {
        find(entries, key, from + 1)
    }
}

/// The search stops at the first entry that carries the key.
proof fn lemma_find_hit<V>(entries: Seq<(String, V)>, key: Seq<char>, from: int, i: int)
    requires
        0 <= from <= i < entries.len(),
        entries[i].0@ == key,
        forall|j: int| from <= j < i ==> (#[trigger] entries[j]).0@ != key,
    ensures
        find(entries, key, from) == Some(entries[i].1),
    decreases i - from,
{
    if from < i {
        assert(entries[from].0@ != key);
        lemma_find_hit(entries, key, from + 1, i);
    }
}

/// The search finds nothing where no entry carries the key.
proof fn lemma_find_miss<V>(entries: Seq<(String, V)>, key: Seq<char>, from: int)
    requires
        0 <= from,
        forall|j: int| from <= j < entries.len() ==> (#[trigger] entries[j]).0@ != key,
    ensures
        find(entries, key, from) is None,
    decreases entries.len() - from,
{
    if from < entries.len() {
        assert(entries[from].0@ != key);
        lemma_find_miss(entries, key, from + 1);
    }
}

/// Two lists that agree on every entry named `key` give the same answer.
proof fn lemma_find_agree<V>(a: Seq<(String, V)>, b: Seq<(String, V)>, key: Seq<char>, from: int)
    requires
        0 <= from,
        a.len() <= b.len(),
        forall|j: int| from <= j < a.len() ==> (#[trigger] a[j]).0@ == key ==> a[j] == b[j],
        forall|j: int| from <= j < b.len() ==> (#[trigger] b[j]).0@ == key ==> j < a.len() && a[j] == b[j],
    ensures
        find(a, key, from) == find(b, key, from),
    decreases b.len() - from,
{
    if from < b.len() {
        if from < a.len() {
            assert(a[from].0@ == key ==> a[from] == b[from]);
        }
        assert(b[from].0@ == key ==> a[from] == b[from]);
        lemma_find_agree(a, b, key, from + 1);
    }
}

impl<V> View for StringMap<V> {
    type V = Map<Seq<char>, V>;

    closed spec fn view(&self) -> Map<Seq<char>, V> {
        Map::new(
            |k: Seq<char>| find(self.entries@, k, 0) is Some,
            |k: Seq<char>| find(self.entries@, k, 0)->0,
        )
    }
}

impl<V> StringMap<V> {
    /// An empty map.
    pub fn new() -> (m: Self)
        ensures
            m@ == Map::<Seq<char>, V>::empty(),
    {
        let m = StringMap { entries: Vec::new() };
        assert(m@ =~= Map::<Seq<char>, V>::empty());
        m
    }

    /// The position of the first entry named `key`, if there is one.
    fn position(&self, key: &String) -> (r: Option<usize>)
        ensures
            match r {
                Some(i) => i < self.entries@.len() && self.entries@[i as int].0@ == key@
                    && forall|j: int| 0 <= j < i ==> (#[trigger] self.entries@[j]).0@ != key@,
                None => forall|j: int|
                    0 <= j < self.entries@.len() ==> (#[trigger] self.entries@[j]).0@ != key@,
            },
    {
        let n: usize = self.entries.len();
        let mut i: usize = 0;
        while i < n
            invariant
                n == self.entries@.len(),
                i <= n,
                forall|j: int| 0 <= j < i ==> (#[trigger] self.entries@[j]).0@ != key@,
            decreases n - i,
        {
            if self.entries[i].0 == *key {
                return Some(i);
            }
            i += 1;
        }
        None
    }

    /// The value stored under `key`, if any.
    pub fn get(&self, key: &str) -> (r: Option<&V>)
        ensures
            match r {
                Some(v) => self@.contains_key(key@) && self@[key@] == *v,
                None => !self@.contains_key(key@),
            },
    {
        let owned: String = key.to_owned();
        match self.position(&owned) {
            Some(i) => {
                proof {
                    lemma_find_hit(self.entries@, key@, 0, i as int);
                }
                Some(&self.entries[i].1)
            },
            None => {
                proof {
                    lemma_find_miss(self.entries@, key@, 0);
                }
                None
            },
        }
    }

    /// Whether a value is stored under `key`.
    pub fn contains_key(&self, key: &str) -> (r: bool)
        ensures
            r == self@.contains_key(key@),
    {
        self.get(key).is_some()
    }

    /// Stores `value` under `key`; a value already stored under that key is
    /// replaced.
    pub fn insert(&mut self, key: String, value: V)
        ensures
            final(self)@ == old(self)@.insert(key@, value),
    {
        let ghost before = self.entries@;
        let ghost k = key@;
        match self.position(&key) {
            Some(i) => {
                self.entries.set(i, (key, value));
                proof {
                    lemma_find_hit(self.entries@, k, 0, i as int);
                }
            },
            None => {
                self.entries.push((key, value));
                proof {
                    lemma_find_hit(self.entries@, k, 0, before.len() as int);
                }
            },
        }
        proof {
            let after = self.entries@;
            assert forall|q: Seq<char>| q != k implies find(after, q, 0) == find(before, q, 0) by {
                lemma_find_agree(before, after, q, 0);
            }
            assert(self@ =~= old(self)@.insert(k, value));
        }
    }
}

} // verus!

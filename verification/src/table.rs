//! A small dictionary keyed by text, kept as a list of entries.

use vstd::prelude::*;

verus! {

/// A dictionary from names to values. The first entry with a given name is
/// the one that counts; `insert` overwrites it in place.
pub struct Table<T> {
    pub entries: Vec<(String, T)>,
}

/// Whether some entry carries `key`.
pub open spec fn has_key<T>(entries: Seq<(String, T)>, key: Seq<char>) -> bool {
    exists|i: int| 0 <= i < entries.len() && (#[trigger] entries[i]).0@ == key
}

/// Whether entry `i` is the first one that carries `key`.
pub open spec fn is_first<T>(entries: Seq<(String, T)>, key: Seq<char>, i: int) -> bool {
    &&& 0 <= i < entries.len()
    &&& entries[i].0@ == key
    &&& forall|j: int| 0 <= j < i ==> (#[trigger] entries[j]).0@ != key
}

/// The index of the first entry that carries `key`.
pub open spec fn first_with<T>(entries: Seq<(String, T)>, key: Seq<char>) -> int {
    choose|i: int| is_first(entries, key, i)
}

/// The dictionary that a list of entries stands for.
pub open spec fn as_map<T>(entries: Seq<(String, T)>) -> Map<Seq<char>, T> {
    Map::new(|k: Seq<char>| has_key(entries, k), |k: Seq<char>| entries[first_with(entries, k)].1)
}

/// An entry with no equal name before it is the one that `first_with` picks.
pub proof fn lemma_first_is_unique<T>(entries: Seq<(String, T)>, key: Seq<char>, i: int)
    requires
        is_first(entries, key, i),
    ensures
        has_key(entries, key),
        first_with(entries, key) == i,
{
    let j = first_with(entries, key);
    assert(is_first(entries, key, j));
    if j < i {
        assert(entries[j].0@ != key);
    }
    if i < j {
        assert(entries[i].0@ != key);
    }
}

/// A name that some entry carries has a first entry.
pub proof fn lemma_has_first<T>(entries: Seq<(String, T)>, key: Seq<char>)
    requires
        has_key(entries, key),
    ensures
        is_first(entries, key, first_with(entries, key)),
{
    let w = choose|i: int| 0 <= i < entries.len() && (#[trigger] entries[i]).0@ == key;
    lemma_first_below(entries, key, w);
}

/// An entry that carries `key` has a first such entry at or before it.
proof fn lemma_first_below<T>(entries: Seq<(String, T)>, key: Seq<char>, w: int)
    requires
        0 <= w < entries.len(),
        entries[w].0@ == key,
    ensures
        exists|i: int| is_first(entries, key, i),
    decreases w,
{
    if exists|j: int| 0 <= j < w && (#[trigger] entries[j]).0@ == key {
        let j = choose|j: int| 0 <= j < w && (#[trigger] entries[j]).0@ == key;
        lemma_first_below(entries, key, j);
    } else {
        assert(is_first(entries, key, w));
    }
}

impl<T> Table<T> {
    /// The dictionary that the table stands for.
    pub open spec fn view(&self) -> Map<Seq<char>, T> {
        as_map(self.entries@)
    }

    /// An empty table.
    pub fn new() -> (r: Self)
        ensures
            r@ == Map::<Seq<char>, T>::empty(),
    {
        let r = Table { entries: Vec::new() };
        assert(r@ =~= Map::<Seq<char>, T>::empty());
        r
    }

    /// The index of the first entry named `key`, if there is one.
    pub fn find(&self, key: &str) -> (r: Option<usize>)
        ensures
            match r {
                Some(i) => is_first(self.entries@, key@, i as int),
                None => !has_key(self.entries@, key@),
            },
    {
        let mut i: usize = 0;
        while i < self.entries.len()
            invariant
                i <= self.entries.len(),
                forall|j: int| 0 <= j < i ==> (#[trigger] self.entries@[j]).0@ != key@,
            decreases self.entries.len() - i,
        {
            if same_str(self.entries[i].0.as_str(), key) {
                return Some(i);
            }
            i += 1;
        }
        None
    }

    /// The value stored under `key`, if there is one.
    pub fn get(&self, key: &str) -> (r: Option<&T>)
        ensures
            match r {
                Some(v) => self@.contains_key(key@) && *v == self@[key@],
                None => !self@.contains_key(key@),
            },
    {
        match self.find(key) {
            Some(i) => {
                proof {
                    lemma_first_is_unique(self.entries@, key@, i as int);
                }
                Some(&self.entries[i].1)
            },
            None => None,
        }
    }

    /// Stores `value` under `key`, in place of what was stored there.
    pub fn insert(&mut self, key: String, value: T)
        ensures
            final(self)@ == old(self)@.insert(key@, value),
    {
        let ghost before = self.entries@;
        let ghost name = key@;
        match self.find(key.as_str()) {
            Some(i) => {
                self.entries[i] = (key, value);
                proof {
                    let after = self.entries@;
                    assert forall|k: Seq<char>| has_key(after, k) <==> has_key(before, k) || k == name by {
                        if has_key(after, k) {
                            let w = choose|w: int| 0 <= w < after.len() && (#[trigger] after[w]).0@ == k;
                            assert(before[w].0@ == k);
                        }
                        if has_key(before, k) {
                            let w = choose|w: int| 0 <= w < before.len() && (#[trigger] before[w]).0@ == k;
                            assert(after[w].0@ == k);
                        }
                        if k == name {
                            assert(after[i as int].0@ == k);
                        }
                    }
                    assert forall|k: Seq<char>| has_key(after, k) implies #[trigger] as_map(after)[k]
                        == before_or(before, name, value, k) by {
                        lemma_has_first(after, k);
                        let f = first_with(after, k);
                        assert forall|j: int| 0 <= j < f implies (#[trigger] before[j]).0@ != k by {
                            assert(after[j].0@ != k);
                        }
                        assert(is_first(before, k, f));
                        lemma_first_is_unique(before, k, f);
                        if k == name {
                            lemma_first_is_unique(before, k, i as int);
                        }
                    }
                    assert(self@ =~= old(self)@.insert(name, value));
                }
            },
            None => {
                self.entries.push((key, value));
                proof {
                    let after = self.entries@;
                    let n = before.len() as int;
                    assert forall|k: Seq<char>| has_key(after, k) <==> has_key(before, k) || k == name by {
                        if has_key(after, k) {
                            let w = choose|w: int| 0 <= w < after.len() && (#[trigger] after[w]).0@ == k;
                            if w < n {
                                assert(before[w].0@ == k);
                            }
                        }
                        if has_key(before, k) {
                            let w = choose|w: int| 0 <= w < before.len() && (#[trigger] before[w]).0@ == k;
                            assert(after[w].0@ == k);
                        }
                        if k == name {
                            assert(after[n].0@ == k);
                        }
                    }
                    assert forall|k: Seq<char>| has_key(after, k) implies #[trigger] as_map(after)[k]
                        == before_or(before, name, value, k) by {
                        lemma_has_first(after, k);
                        let f = first_with(after, k);
                        if f < n {
                            assert(before[f].0@ == k);
                            assert forall|j: int| 0 <= j < f implies (#[trigger] before[j]).0@ != k by {
                                assert(after[j].0@ != k);
                            }
                            assert(is_first(before, k, f));
                            lemma_first_is_unique(before, k, f);
                        }
                    }
                    assert(self@ =~= old(self)@.insert(name, value));
                }
            },
        }
    }
}

/// What `key` maps to once `value` is stored under `name`.
pub open spec fn before_or<T>(
    before: Seq<(String, T)>,
    name: Seq<char>,
    value: T,
    key: Seq<char>,
) -> T {
    if key == name {
        value
    } else {
        as_map(before)[key]
    }
}

/// Tells whether two strings hold the same characters.
pub fn same_str(a: &str, b: &str) -> (r: bool)
    ensures
        r == (a@ == b@),
{
    let n = a.unicode_len();
    if n != b.unicode_len() {
        return false;
    }
    let mut i: usize = 0;
    while i < n
        invariant
            i <= n,
            n == a@.len(),
            n == b@.len(),
            forall|j: int| 0 <= j < i ==> a@[j] == b@[j],
        decreases n - i,
    {
        if a.get_char(i) != b.get_char(i) {
            return false;
        }
        i += 1;
    }
    assert(a@ =~= b@);
    true
}

} // verus!

//! A map from digests to values, kept as a list ordered by key.
//!
//! The order makes the list a function of the map it stands for, so that two
//! tables with the same content are walked in the same order.

use crate::crypto::hash;
use vstd::prelude::*;

verus! {

/// A key of a table with its value.
#[derive(Debug)]
pub struct Entry<V> {
    pub key: hash::Hash,
    pub value: V,
}

/// Whether the keys of `s` strictly increase.
pub open spec fn sorted<V>(s: Seq<Entry<V>>) -> bool {
    forall|i: int, j: int|
        0 <= i < j < s.len() ==> (#[trigger] s[i]).key.spec_lt((#[trigger] s[j]).key)
}

/// Whether `s` has an entry for `key`.
pub open spec fn contains<V>(s: Seq<Entry<V>>, key: hash::Hash) -> bool {
    exists|i: int| 0 <= i < s.len() && (#[trigger] s[i]).key == key
}

/// The position of the entry of `s` for `key`.
pub open spec fn index_of<V>(s: Seq<Entry<V>>, key: hash::Hash) -> int {
    choose|i: int| 0 <= i < s.len() && (#[trigger] s[i]).key == key
}

/// The values of `s` by their keys.
pub open spec fn as_map<V>(s: Seq<Entry<V>>) -> Map<hash::Hash, V> {
    Map::new(|k: hash::Hash| contains(s, k), |k: hash::Hash| s[index_of(s, k)].value)
}

pub proof fn lemma_index_unique<V>(s: Seq<Entry<V>>, i: int, j: int)
    requires
        sorted(s),
        0 <= i < s.len(),
        0 <= j < s.len(),
        s[i].key == s[j].key,
    ensures
        i == j,
{
    if i < j {
        assert(s[i].key.spec_lt(s[j].key));
    } else if j < i {
        assert(s[j].key.spec_lt(s[i].key));
    }
}

pub proof fn lemma_index_of<V>(s: Seq<Entry<V>>, i: int)
    requires
        sorted(s),
        0 <= i < s.len(),
    ensures
        contains(s, s[i].key),
        index_of(s, s[i].key) == i,
        as_map(s).contains_key(s[i].key),
        as_map(s)[s[i].key] == s[i].value,
{
    lemma_index_unique(s, i, index_of(s, s[i].key));
}

pub proof fn lemma_map_after_update<V>(before: Seq<Entry<V>>, after: Seq<Entry<V>>, i: int)
    requires
        sorted(before),
        0 <= i < before.len(),
        after.len() == before.len(),
        after[i].key == before[i].key,
        forall|j: int| 0 <= j < before.len() && j != i ==> after[j] == before[j],
    ensures
        sorted(after),
        as_map(after) == as_map(before).insert(after[i].key, after[i].value),
{
    assert forall|a: int, b: int| 0 <= a < b < after.len()
        implies (#[trigger] after[a]).key.spec_lt(
        (#[trigger] after[b]).key,
    ) by {
        assert(before[a].key.spec_lt(before[b].key));
    }
    let key = after[i].key;
    let m0 = as_map(before).insert(key, after[i].value);
    let m1 = as_map(after);
    assert forall|k: hash::Hash| m0.contains_key(k) <==> m1.contains_key(k) by {
        if contains(before, k) {
            assert(after[index_of(before, k)].key == k);
        }
        if contains(after, k) {
            assert(before[index_of(after, k)].key == k);
        }
        assert(after[i].key == key);
    }
    assert forall|k: hash::Hash| m0.contains_key(k) implies m0[k] == m1[k] by {
        let j = index_of(after, k);
        lemma_index_of(after, j);
        if k != key {
            assert(before[j] == after[j]);
            lemma_index_of(before, j);
        } else {
            lemma_index_unique(after, i, j);
        }
    }
    assert(m0 =~= m1);
}

pub proof fn lemma_map_after_insert<V>(before: Seq<Entry<V>>, i: int, entry: Entry<V>)
    requires
        sorted(before),
        0 <= i <= before.len(),
        forall|j: int| 0 <= j < i ==> (#[trigger] before[j]).key.spec_lt(entry.key),
        forall|j: int| i <= j < before.len() ==> entry.key.spec_lt((#[trigger] before[j]).key),
    ensures
        sorted(before.insert(i, entry)),
        as_map(before.insert(i, entry)) == as_map(before).insert(entry.key, entry.value),
{
    let after = before.insert(i, entry);
    assert forall|a: int, b: int| 0 <= a < b < after.len()
        implies (#[trigger] after[a]).key.spec_lt(
        (#[trigger] after[b]).key,
    ) by {
        if b < i {
            assert(before[a].key.spec_lt(before[b].key));
        } else if b == i {
            assert(before[a].key.spec_lt(entry.key));
        } else if a < i {
            assert(before[a].key.spec_lt(before[b - 1].key));
        } else if a == i {
            assert(entry.key.spec_lt(before[b - 1].key));
        } else {
            assert(before[a - 1].key.spec_lt(before[b - 1].key));
        }
    }
    let m0 = as_map(before).insert(entry.key, entry.value);
    let m1 = as_map(after);
    assert(after[i] == entry);
    assert forall|k: hash::Hash| m0.contains_key(k) <==> m1.contains_key(k) by {
        if contains(before, k) {
            let j = index_of(before, k);
            let j1 = if j < i {
                j
            } else {
                j + 1
            };
            assert(after[j1].key == k);
        }
        if contains(after, k) {
            let j = index_of(after, k);
            if j != i {
                let j0 = if j < i {
                    j
                } else {
                    j - 1
                };
                assert(before[j0].key == k);
            }
        }
    }
    assert forall|k: hash::Hash| m0.contains_key(k) implies m0[k] == m1[k] by {
        let j = index_of(after, k);
        lemma_index_of(after, j);
        if k != entry.key {
            let j0 = if j < i {
                j
            } else {
                j - 1
            };
            assert(before[j0] == after[j]);
            lemma_index_of(before, j0);
        } else {
            lemma_index_unique(after, i, j);
        }
    }
    assert(m0 =~= m1);
}

pub proof fn lemma_map_after_remove<V>(before: Seq<Entry<V>>, i: int)
    requires
        sorted(before),
        0 <= i < before.len(),
    ensures
        sorted(before.remove(i)),
        as_map(before.remove(i)) == as_map(before).remove(before[i].key),
{
    let after = before.remove(i);
    assert forall|a: int, b: int| 0 <= a < b < after.len()
        implies (#[trigger] after[a]).key.spec_lt(
        (#[trigger] after[b]).key,
    ) by {
        let a0 = if a < i {
            a
        } else {
            a + 1
        };
        let b0 = if b < i {
            b
        } else {
            b + 1
        };
        assert(before[a0].key.spec_lt(before[b0].key));
    }
    let gone = before[i].key;
    let m0 = as_map(before).remove(gone);
    let m1 = as_map(after);
    assert forall|k: hash::Hash| m0.contains_key(k) <==> m1.contains_key(k) by {
        if contains(before, k) && k != gone {
            let j = index_of(before, k);
            let j1 = if j < i {
                j
            } else {
                j - 1
            };
            assert(after[j1].key == k);
        }
        if contains(after, k) {
            let j = index_of(after, k);
            let j0 = if j < i {
                j
            } else {
                j + 1
            };
            assert(before[j0].key == k);
            if k == gone {
                lemma_index_unique(before, i, j0);
            }
        }
    }
    assert forall|k: hash::Hash| m0.contains_key(k) implies m0[k] == m1[k] by {
        let j = index_of(after, k);
        lemma_index_of(after, j);
        let j0 = if j < i {
            j
        } else {
            j + 1
        };
        assert(before[j0] == after[j]);
        lemma_index_of(before, j0);
    }
    assert(m0 =~= m1);
}

/// An ordered list has as many entries as its map has keys.
pub proof fn lemma_len_is_dom<V>(s: Seq<Entry<V>>)
    requires
        sorted(s),
    ensures
        as_map(s).dom().finite(),
        as_map(s).dom().len() == s.len(),
    decreases s.len(),
{
    if s.len() == 0 {
        assert(as_map(s).dom() =~= Set::<hash::Hash>::empty());
    } else {
        let last = s.len() - 1;
        lemma_map_after_remove(s, last);
        assert(s.remove(last) =~= s.drop_last());
        lemma_len_is_dom(s.drop_last());
        lemma_index_of(s, last);
        assert(as_map(s).dom() =~= as_map(s.drop_last()).dom().insert(s[last].key));
        assert(!as_map(s.drop_last()).dom().contains(s[last].key));
    }
}

/// A map from digests to values.
#[derive(Debug)]
pub struct Table<V> {
    pub entries: Vec<Entry<V>>,
}

impl<V> Table<V> {
    pub open spec fn wf(&self) -> bool {
        sorted(self.entries@)
    }

    pub open spec fn view(&self) -> Map<hash::Hash, V> {
        as_map(self.entries@)
    }

    pub fn new() -> (t: Table<V>)
        ensures
            t.wf(),
            t.entries@.len() == 0,
            t@ == Map::<hash::Hash, V>::empty(),
    {
        let t = Table { entries: Vec::new() };
        assert(t@ =~= Map::<hash::Hash, V>::empty());
        t
    }

    pub fn len(&self) -> (n: usize)
        ensures
            n == self.entries@.len(),
    {
        self.entries.len()
    }

    pub fn is_empty(&self) -> (r: bool)
        requires
            self.wf(),
        ensures
            r == (self.entries@.len() == 0),
            r == (self@ == Map::<hash::Hash, V>::empty()),
    {
        proof {
            if self.entries@.len() > 0 {
                lemma_index_of(self.entries@, 0);
            } else {
                assert(self@ =~= Map::<hash::Hash, V>::empty());
            }
        }
        self.entries.len() == 0
    }

    /// The first position whose key is not below `key`, and whether it holds `key`.
    pub fn position(&self, key: &hash::Hash) -> (r: (usize, bool))
        requires
            self.wf(),
        ensures
            r.0 <= self.entries@.len(),
            forall|j: int| 0 <= j < r.0 ==> (#[trigger] self.entries@[j]).key.spec_lt(*key),
            forall|j: int|
                r.0 <= j < self.entries@.len() && !(r.1 && j == r.0) ==> key.spec_lt(
                    (#[trigger] self.entries@[j]).key,
                ),
            r.1 == (r.0 < self.entries@.len() && self.entries@[r.0 as int].key == *key),
            r.1 == self@.contains_key(*key),
            r.1 ==> self@[*key] == self.entries@[r.0 as int].value,
    {
        let mut i: usize = 0;
        while i < self.entries.len() && self.entries[i].key.lt(key)
            invariant
                i <= self.entries@.len(),
                forall|j: int| 0 <= j < i ==> (#[trigger] self.entries@[j]).key.spec_lt(*key),
            decreases self.entries@.len() - i,
        {
            i = i + 1;
        }
        let found = i < self.entries.len() && self.entries[i].key == *key;
        proof {
            let s = self.entries@;
            assert forall|j: int| i <= j < s.len() && !(found && j == i) implies key.spec_lt(
                (#[trigger] s[j]).key,
            ) by {
                if i < j {
                    assert(s[i as int].key.spec_lt(s[j].key));
                }
            }
            if found {
                lemma_index_of(s, i as int);
            } else if contains(s, *key) {
                let j = index_of(s, *key);
                if j < i {
                    assert(s[j].key.spec_lt(*key));
                } else {
                    assert(key.spec_lt(s[j].key));
                }
                assert(false);
            }
        }
        (i, found)
    }

    pub fn contains_key(&self, key: &hash::Hash) -> (r: bool)
        requires
            self.wf(),
        ensures
            r == self@.contains_key(*key),
    {
        let (_, found) = self.position(key);
        found
    }

    /// The value for `key`, if there is one.
    pub fn get(&self, key: &hash::Hash) -> (r: Option<&V>)
        requires
            self.wf(),
        ensures
            r.is_some() == self@.contains_key(*key),
            r.is_some() ==> *r.unwrap() == self@[*key],
    {
        let (i, found) = self.position(key);
        if found {
            Some(&self.entries[i].value)
        } else {
            None
        }
    }

    /// The key at position `i` in the order of keys.
    pub fn key_at(&self, i: usize) -> (k: hash::Hash)
        requires
            self.wf(),
            i < self.entries@.len(),
        ensures
            k == self.entries@[i as int].key,
            self@.contains_key(k),
            self@[k] == self.entries@[i as int].value,
    {
        proof {
            lemma_index_of(self.entries@, i as int);
        }
        self.entries[i].key
    }

    /// The value at position `i` in the order of keys.
    pub fn value_at(&self, i: usize) -> (v: &V)
        requires
            i < self.entries@.len(),
        ensures
            *v == self.entries@[i as int].value,
    {
        &self.entries[i].value
    }

    /// Replaces the value at position `i` in the order of keys.
    pub fn set_value_at(&mut self, i: usize, value: V)
        requires
            old(self).wf(),
            i < old(self).entries@.len(),
        ensures
            final(self).wf(),
            final(self).entries@.len() == old(self).entries@.len(),
            final(self).entries@[i as int].key == old(self).entries@[i as int].key,
            final(self).entries@[i as int].value == value,
            forall|j: int|
                0 <= j < old(self).entries@.len() && j != i ==> #[trigger] final(self).entries@[j]
                    == old(self).entries@[j],
            final(self)@ == old(self)@.insert(old(self).entries@[i as int].key, value),
    {
        let key = self.entries[i].key;
        let ghost before = self.entries@;
        self.entries.set(i, Entry { key, value });
        proof {
            lemma_map_after_update(before, self.entries@, i as int);
        }
    }

    /// Sets the value for `key` and returns the one that it had.
    pub fn insert(&mut self, key: hash::Hash, value: V) -> (prev: Option<V>)
        requires
            old(self).wf(),
        ensures
            final(self).wf(),
            final(self)@ == old(self)@.insert(key, value),
            prev.is_some() == old(self)@.contains_key(key),
            prev.is_some() ==> prev.unwrap() == old(self)@[key],
    {
        let (i, found) = self.position(&key);
        let ghost before = self.entries@;
        if found {
            let gone = self.entries.remove(i);
            proof {
                lemma_map_after_remove(before, i as int);
            }
            let ghost mid = self.entries@;
            self.entries.insert(i, Entry { key, value });
            proof {
                assert forall|j: int| 0 <= j < i implies (#[trigger] mid[j]).key.spec_lt(key) by {
                    assert(mid[j] == before[j]);
                }
                assert forall|j: int| i <= j < mid.len() implies key.spec_lt(
                    (#[trigger] mid[j]).key,
                ) by {
                    assert(mid[j] == before[j + 1]);
                }
                lemma_map_after_insert(mid, i as int, Entry { key, value });
                assert(self@ =~= old(self)@.insert(key, value));
            }
            Some(gone.value)
        } else {
            self.entries.insert(i, Entry { key, value });
            proof {
                lemma_map_after_insert(before, i as int, Entry { key, value });
            }
            None
        }
    }

    /// Takes out the value for `key` and returns it, if there was one.
    pub fn remove(&mut self, key: &hash::Hash) -> (prev: Option<V>)
        requires
            old(self).wf(),
        ensures
            final(self).wf(),
            final(self)@ == old(self)@.remove(*key),
            prev.is_some() == old(self)@.contains_key(*key),
            prev.is_some() ==> prev.unwrap() == old(self)@[*key],
    {
        let (i, found) = self.position(key);
        if found {
            proof {
                lemma_map_after_remove(self.entries@, i as int);
            }
            let gone = self.entries.remove(i);
            Some(gone.value)
        } else {
            proof {
                assert(self@ =~= old(self)@.remove(*key));
            }
            None
        }
    }
}

} // verus!

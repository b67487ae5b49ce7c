//! A table from keys to values that remembers the first value of each key.

use vstd::prelude::*;

use crate::same_value::SameValue;

verus! {

/// A table from keys to values. Its deep view is a map.
#[derive(Debug)]
pub struct Table<K, V> {
    entries: Vec<(K, V)>,
}

/// The map that a list of entries makes: of two entries with one key, the
/// earlier counts.
pub open spec fn table_map<K, V>(entries: Seq<(K, V)>) -> Map<K, V>
    decreases entries.len(),
{
    if entries.len() == 0 {
        Map::empty()
    } else {
        keep_first(table_map(entries.drop_last()), entries.last().0, entries.last().1)
    }
}

/// `map` with `value` at `key`, unless it has a value there.
pub open spec fn keep_first<K, V>(map: Map<K, V>, key: K, value: V) -> Map<K, V> {
    if map.contains_key(key) {
        map
    } else {
        map.insert(key, value)
    }
}

/// Recording a value gives it to a key that has none, and changes nothing else:
/// a key that has a value keeps it, and no other key gets one or loses one.
pub proof fn lemma_keep_first<K, V>(map: Map<K, V>, key: K, value: V)
    ensures
        map.submap_of(keep_first(map, key, value)),
        keep_first(map, key, value).contains_key(key),
        !map.contains_key(key) ==> keep_first(map, key, value)[key] == value,
        map.contains_key(key) ==> keep_first(map, key, value)[key] == map[key],
        forall|other: K|
            other != key ==> #[trigger] keep_first(map, key, value).contains_key(other)
                == map.contains_key(other),
{
}

impl<K: DeepView, V: DeepView> DeepView for Table<K, V> {
    type V = Map<K::V, V::V>;

    closed spec fn deep_view(&self) -> Map<K::V, V::V> {
        table_map(self.entries.deep_view())
    }
}

/// The entries before an entry give no value to its key, where its value counts.
proof fn lemma_first_entry<K, V>(entries: Seq<(K, V)>, i: int)
    requires
        0 <= i < entries.len(),
        forall|j: int| 0 <= j < i ==> (#[trigger] entries[j]).0 != entries[i].0,
    ensures
        table_map(entries).get(entries[i].0) == Some(entries[i].1),
    decreases entries.len(),
{
    if i == entries.len() - 1 {
        lemma_no_entry(entries.drop_last(), entries[i].0);
    } else {
        lemma_first_entry(entries.drop_last(), i);
    }
}

/// A key without entry is not in the map.
proof fn lemma_no_entry<K, V>(entries: Seq<(K, V)>, key: K)
    requires
        forall|j: int| 0 <= j < entries.len() ==> (#[trigger] entries[j]).0 != key,
    ensures
        !table_map(entries).contains_key(key),
    decreases entries.len(),
{
    if entries.len() > 0 {
        assert(entries.last().0 != key);
        lemma_no_entry(entries.drop_last(), key);
    }
}

/// A list of entries makes a finite map.
proof fn lemma_finite_entries<K, V>(entries: Seq<(K, V)>)
    ensures
        table_map(entries).dom().finite(),
    decreases entries.len(),
{
    if entries.len() > 0 {
        lemma_finite_entries(entries.drop_last());
    }
}

impl<K: DeepView, V: DeepView> Table<K, V> {
    /// A table has finitely many keys.
    pub proof fn lemma_finite(&self)
        ensures
            self.deep_view().dom().finite(),
    {
        lemma_finite_entries(self.entries.deep_view());
    }
}

impl<K: SameValue, V: DeepView> Table<K, V> {
    /// The empty table.
    pub fn new() -> (result: Self)
        ensures
            result.deep_view() == Map::<K::V, V::V>::empty(),
    {
        Table { entries: Vec::new() }
    }

    /// Remembers `value` for `key`, unless the table has a value for it.
    pub fn record(&mut self, key: K, value: V)
        ensures
            final(self).deep_view() == keep_first(
                old(self).deep_view(),
                key.deep_view(),
                value.deep_view(),
            ),
    {
        let ghost before = self.entries.deep_view();
        let ghost entry = (key.deep_view(), value.deep_view());
        self.entries.push((key, value));
        assert(self.entries.deep_view() =~= before.push(entry));
        assert(before.push(entry).drop_last() =~= before);
    }

    /// The value for `key`.
    pub fn get(&self, key: &K) -> (result: Option<&V>)
        ensures
            result.deep_view() == self.deep_view().get(key.deep_view()),
    {
        for i in 0..self.entries.len()
            invariant
                forall|j: int|
                    0 <= j < i ==> (#[trigger] self.entries.deep_view()[j]).0 != key.deep_view(),
        {
            if self.entries[i].0.same(key) {
                proof {
                    lemma_first_entry(self.entries.deep_view(), i as int);
                }
                return Some(&self.entries[i].1);
            }
        }
        proof {
            lemma_no_entry(self.entries.deep_view(), key.deep_view());
        }
        None
    }
}

} // verus!

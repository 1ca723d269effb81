//! A map with string keys, kept as a list of entries with distinct keys.

use vstd::prelude::*;

verus! {

/// One key of a [`StringMap`] with its value.
pub struct Entry<V> {
    key: String,
    value: V,
}

/// A map from strings to values of type `V`.
pub struct StringMap<V> {
    entries: Vec<Entry<V>>,
}

/// Whether entry `i` of `entries` has key `key`.
pub closed spec fn entry_has_key<V>(entries: Seq<Entry<V>>, i: int, key: Seq<char>) -> bool {
    0 <= i < entries.len() && entries[i].key@ == key
}

/// Whether no two entries of `entries` have the same key.
pub closed spec fn distinct_keys<V>(entries: Seq<Entry<V>>) -> bool {
    forall|i: int, j: int|
        0 <= i < j < entries.len() ==> (#[trigger] entries[i]).key@ != (#[trigger] entries[j]).key@
}

/// The map that `entries` stand for.
pub closed spec fn entries_map<V>(entries: Seq<Entry<V>>) -> Map<Seq<char>, V> {
    Map::new(
        |key: Seq<char>| exists|i: int| #[trigger] entry_has_key(entries, i, key),
        |key: Seq<char>| entries[choose|i: int| #[trigger] entry_has_key(entries, i, key)].value,
    )
}

/// With distinct keys, each entry's key maps to that entry's value.
proof fn lemma_entry_in_map<V>(entries: Seq<Entry<V>>, i: int)
    requires
        distinct_keys(entries),
        0 <= i < entries.len(),
    ensures
        entries_map(entries).contains_key(entries[i].key@),
        entries_map(entries)[entries[i].key@] == entries[i].value,
{
    let key = entries[i].key@;
    assert(entry_has_key(entries, i, key));
    let j = choose|j: int| #[trigger] entry_has_key(entries, j, key);
    assert(j == i);
}

/// A key that no entry has is not in the map.
proof fn lemma_absent_key<V>(entries: Seq<Entry<V>>, key: Seq<char>)
    requires
        forall|i: int| 0 <= i < entries.len() ==> (#[trigger] entries[i]).key@ != key,
    ensures
        !entries_map(entries).contains_key(key),
{
    assert forall|i: int| !#[trigger] entry_has_key(entries, i, key) by {}
}

/// Appending an entry with a new key adds that key to the map.
proof fn lemma_push_entry<V>(entries: Seq<Entry<V>>, entry: Entry<V>)
    requires
        distinct_keys(entries),
        !entries_map(entries).contains_key(entry.key@),
    ensures
        distinct_keys(entries.push(entry)),
        entries_map(entries.push(entry)) == entries_map(entries).insert(entry.key@, entry.value),
{
    let after = entries.push(entry);
    assert forall|i: int| 0 <= i < entries.len() implies (#[trigger] entries[i]).key@
        != entry.key@ by {
        lemma_entry_in_map(entries, i);
    }
    assert(distinct_keys(after));
    let want = entries_map(entries).insert(entry.key@, entry.value);
    assert forall|key: Seq<char>| entries_map(after).contains_key(key) <==> want.contains_key(
        key,
    ) by {
        if entries_map(after).contains_key(key) {
            let i = choose|i: int| #[trigger] entry_has_key(after, i, key);
            if i < entries.len() {
                assert(entry_has_key(entries, i, key));
            }
        }
        if want.contains_key(key) {
            if key == entry.key@ {
                assert(entry_has_key(after, entries.len() as int, key));
            } else {
                let i = choose|i: int| #[trigger] entry_has_key(entries, i, key);
                assert(entry_has_key(after, i, key));
            }
        }
    }
    assert forall|key: Seq<char>| #[trigger] entries_map(after).contains_key(key) implies entries_map(
        after,
    )[key] == want[key] by {
        let i = choose|i: int| #[trigger] entry_has_key(after, i, key);
        lemma_entry_in_map(after, i);
        if i < entries.len() {
            lemma_entry_in_map(entries, i);
        }
    }
    assert(entries_map(after) =~= want);
}

/// Replacing the value of entry `i` replaces the value of its key in the map.
proof fn lemma_update_entry<V>(entries: Seq<Entry<V>>, i: int, entry: Entry<V>)
    requires
        distinct_keys(entries),
        0 <= i < entries.len(),
        entry.key@ == entries[i].key@,
    ensures
        distinct_keys(entries.update(i, entry)),
        entries_map(entries.update(i, entry)) == entries_map(entries).insert(
            entry.key@,
            entry.value,
        ),
{
    let after = entries.update(i, entry);
    assert(distinct_keys(after));
    let want = entries_map(entries).insert(entry.key@, entry.value);
    assert forall|key: Seq<char>| entries_map(after).contains_key(key) <==> want.contains_key(
        key,
    ) by {
        if entries_map(after).contains_key(key) {
            let j = choose|j: int| #[trigger] entry_has_key(after, j, key);
            assert(entry_has_key(entries, j, key));
        }
        if want.contains_key(key) {
            if key == entry.key@ {
                assert(entry_has_key(after, i, key));
            } else {
                let j = choose|j: int| #[trigger] entry_has_key(entries, j, key);
                assert(entry_has_key(after, j, key));
            }
        }
    }
    assert forall|key: Seq<char>| #[trigger] entries_map(after).contains_key(key) implies entries_map(
        after,
    )[key] == want[key] by {
        let j = choose|j: int| #[trigger] entry_has_key(after, j, key);
        lemma_entry_in_map(after, j);
        if j != i {
            lemma_entry_in_map(entries, j);
        }
    }
    assert(entries_map(after) =~= want);
}

/// Taking entry `i` out removes its key from the map.
proof fn lemma_remove_entry<V>(entries: Seq<Entry<V>>, i: int)
    requires
        distinct_keys(entries),
        0 <= i < entries.len(),
    ensures
        distinct_keys(entries.remove(i)),
        entries_map(entries.remove(i)) == entries_map(entries).remove(entries[i].key@),
{
    let after = entries.remove(i);
    let gone = entries[i].key@;
    assert forall|a: int, b: int| 0 <= a < b < after.len() implies (#[trigger] after[a]).key@ != (
    #[trigger] after[b]).key@ by {
        let a0 = if a < i { a } else { a + 1 };
        let b0 = if b < i { b } else { b + 1 };
        assert(after[a] == entries[a0]);
        assert(after[b] == entries[b0]);
    }
    let want = entries_map(entries).remove(gone);
    assert forall|key: Seq<char>| entries_map(after).contains_key(key) <==> want.contains_key(
        key,
    ) by {
        if entries_map(after).contains_key(key) {
            let j = choose|j: int| #[trigger] entry_has_key(after, j, key);
            let j0 = if j < i { j } else { j + 1 };
            assert(after[j] == entries[j0]);
            assert(entry_has_key(entries, j0, key));
            assert(entries[j0].key@ != entries[i].key@);
        }
        if want.contains_key(key) {
            let j = choose|j: int| #[trigger] entry_has_key(entries, j, key);
            let j1 = if j < i { j } else { j - 1 };
            assert(after[j1] == entries[j]);
            assert(entry_has_key(after, j1, key));
        }
    }
    assert forall|key: Seq<char>| #[trigger] entries_map(after).contains_key(key) implies entries_map(
        after,
    )[key] == want[key] by {
        let j = choose|j: int| #[trigger] entry_has_key(after, j, key);
        let j0 = if j < i { j } else { j + 1 };
        assert(after[j] == entries[j0]);
        lemma_entry_in_map(after, j);
        lemma_entry_in_map(entries, j0);
    }
    assert(entries_map(after) =~= want);
}

impl<V> View for StringMap<V> {
    type V = Map<Seq<char>, V>;

    closed spec fn view(&self) -> Map<Seq<char>, V> {
        entries_map(self.entries@)
    }
}

impl<V> StringMap<V> {
    /// Whether the map is well formed: no key occurs twice among its entries.
    pub closed spec fn wf(&self) -> bool {
        distinct_keys(self.entries@)
    }

    /// The empty map.
    pub fn new() -> (map: Self)
        ensures
            map.wf(),
            map@ == Map::<Seq<char>, V>::empty(),
    {
        let map = StringMap { entries: Vec::new() };
        proof {
            lemma_absent_all(map.entries@);
        }
        map
    }

    /// Position of the entry with key `key`, if there is one.
    fn position(&self, key: &String) -> (found: Option<usize>)
        ensures
            found matches Some(i) ==> i < self.entries@.len() && self.entries@[i as int].key@
                == key@,
            found is None ==> !self@.contains_key(key@),
    {
        let mut i: usize = 0;
        while i < self.entries.len()
            invariant
                i <= self.entries.len(),
                forall|k: int| 0 <= k < i ==> (#[trigger] self.entries@[k]).key@ != key@,
            decreases self.entries.len() - i,
        {
            if self.entries[i].key == *key {
                return Some(i);
            }
            i += 1;
        }
        proof {
            lemma_absent_key(self.entries@, key@);
        }
        None
    }

    /// Whether the map has key `key`.
    pub fn contains_key(&self, key: &String) -> (found: bool)
        requires
            self.wf(),
        ensures
            found == self@.contains_key(key@),
    {
        match self.position(key) {
            Some(i) => {
                proof {
                    lemma_entry_in_map(self.entries@, i as int);
                }
                true
            },
            None => false,
        }
    }

    /// The value of key `key`, if the map has it.
    pub fn get(&self, key: &String) -> (found: Option<&V>)
        requires
            self.wf(),
        ensures
            found matches Some(value) ==> self@.contains_key(key@) && *value == self@[key@],
            found is None ==> !self@.contains_key(key@),
    {
        match self.position(key) {
            Some(i) => {
                proof {
                    lemma_entry_in_map(self.entries@, i as int);
                }
                Some(&self.entries[i].value)
            },
            None => None,
        }
    }

    /// Gives key `key` the value `value`, whether or not the map had the key.
    pub fn insert(&mut self, key: String, value: V)
        requires
            old(self).wf(),
        ensures
            final(self).wf(),
            final(self)@ == old(self)@.insert(key@, value),
    {
        match self.position(&key) {
            Some(i) => {
                proof {
                    lemma_update_entry(self.entries@, i as int, Entry { key, value });
                }
                self.entries[i] = Entry { key, value };
            },
            None => {
                proof {
                    lemma_push_entry(self.entries@, Entry { key, value });
                }
                self.entries.push(Entry { key, value });
            },
        }
    }

    /// Takes key `key` out of the map and returns the value it had, if any.
    pub fn remove(&mut self, key: &String) -> (removed: Option<V>)
        requires
            old(self).wf(),
        ensures
            final(self).wf(),
            final(self)@ == old(self)@.remove(key@),
            removed == (if old(self)@.contains_key(key@) {
                Some(old(self)@[key@])
            } else {
                None
            }),
    {
        match self.position(key) {
            Some(i) => {
                proof {
                    lemma_entry_in_map(self.entries@, i as int);
                    lemma_remove_entry(self.entries@, i as int);
                }
                let entry = self.entries.remove(i);
                Some(entry.value)
            },
            None => {
                assert(self@.remove(key@) =~= self@);
                None
            },
        }
    }

    /// The keys of the map, each once.
    pub fn keys(&self) -> (keys: Vec<String>)
        requires
            self.wf(),
        ensures
            forall|key: Seq<char>|
                self@.contains_key(key) <==> exists|i: int|
                    0 <= i < keys@.len() && (#[trigger] keys@[i])@ == key,
            forall|i: int, j: int|
                0 <= i < j < keys@.len() ==> (#[trigger] keys@[i])@ != (#[trigger] keys@[j])@,
    {
        let mut keys: Vec<String> = Vec::new();
        let mut i: usize = 0;
        while i < self.entries.len()
            invariant
                i <= self.entries.len(),
                keys@.len() == i,
                forall|k: int| 0 <= k < i ==> (#[trigger] keys@[k])@ == self.entries@[k].key@,
            decreases self.entries.len() - i,
        {
            keys.push(self.entries[i].key.clone());
            i += 1;
        }
        proof {
            assert forall|key: Seq<char>|
                self@.contains_key(key) <==> exists|i: int|
                    0 <= i < keys@.len() && (#[trigger] keys@[i])@ == key by {
                if self@.contains_key(key) {
                    let i = choose|i: int| #[trigger] entry_has_key(self.entries@, i, key);
                    assert(keys@[i]@ == key);
                }
                if exists|i: int| 0 <= i < keys@.len() && (#[trigger] keys@[i])@ == key {
                    let i = choose|i: int| 0 <= i < keys@.len() && (#[trigger] keys@[i])@ == key;
                    assert(entry_has_key(self.entries@, i, key));
                }
            }
        }
        keys
    }
}

/// A list without entries stands for the empty map.
proof fn lemma_absent_all<V>(entries: Seq<Entry<V>>)
    requires
        entries.len() == 0,
    ensures
        entries_map(entries) == Map::<Seq<char>, V>::empty(),
{
    assert forall|key: Seq<char>| !entries_map(entries).contains_key(key) by {
        lemma_absent_key(entries, key);
    }
    assert(entries_map(entries) =~= Map::<Seq<char>, V>::empty());
}

} // verus!

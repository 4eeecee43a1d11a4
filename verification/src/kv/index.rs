//! The index: for each live key, the offset in the data file of the record
//! that holds its value.
//!
//! The index lives in memory only. It keeps its keys in the order in which
//! they came to be live, no key twice, and that order is the one in which a
//! compaction writes the records out.
use vstd::prelude::*;

verus! {

/// No key occurs twice.
pub open spec fn keys_distinct(entries: Seq<(Seq<char>, u64)>) -> bool {
    forall|i: int, j: int|
        0 <= i < j < entries.len() ==> (#[trigger] entries[i]).0 != (#[trigger] entries[j]).0
}

/// Whether `key` occurs at position `i`.
pub open spec fn key_at(entries: Seq<(Seq<char>, u64)>, key: Seq<char>, i: int) -> bool {
    0 <= i < entries.len() && entries[i].0 == key
}

/// The mapping from key to offset that the entries stand for.
pub open spec fn entries_map(entries: Seq<(Seq<char>, u64)>) -> Map<Seq<char>, u64> {
    Map::new(
        |key: Seq<char>| exists|i: int| key_at(entries, key, i),
        |key: Seq<char>| entries[choose|i: int| key_at(entries, key, i)].1,
    )
}

/// Whether `key` occurs among the entries.
pub open spec fn has_key(entries: Seq<(Seq<char>, u64)>, key: Seq<char>) -> bool {
    exists|i: int| key_at(entries, key, i)
}

/// A position at which `key` occurs, where it occurs.
pub open spec fn position_of(entries: Seq<(Seq<char>, u64)>, key: Seq<char>) -> int {
    choose|i: int| key_at(entries, key, i)
}

/// The entries after `key` was given `offset`: a key that is there keeps its
/// place, a new one comes last.
pub open spec fn entries_put(entries: Seq<(Seq<char>, u64)>, key: Seq<char>, offset: u64) -> Seq<
    (Seq<char>, u64),
> {
    if has_key(entries, key) {
        entries.update(position_of(entries, key), (key, offset))
    } else {
        entries.push((key, offset))
    }
}

/// The entries after `key` was taken out: the others keep their order.
pub open spec fn entries_del(entries: Seq<(Seq<char>, u64)>, key: Seq<char>) -> Seq<
    (Seq<char>, u64),
> {
    if has_key(entries, key) {
        entries.remove(position_of(entries, key))
    } else {
        entries
    }
}

/// Each entry is what the mapping holds for its key.
pub proof fn lemma_entry_in_map(entries: Seq<(Seq<char>, u64)>, i: int)
    requires
        keys_distinct(entries),
        0 <= i < entries.len(),
    ensures
        entries_map(entries).contains_key(entries[i].0),
        entries_map(entries)[entries[i].0] == entries[i].1,
{
    let key = entries[i].0;
    assert(key_at(entries, key, i));
    let j = choose|j: int| key_at(entries, key, j);
    assert(j == i);
}

/// A key that the mapping holds occurs at some position.
pub proof fn lemma_map_has_entry(entries: Seq<(Seq<char>, u64)>, key: Seq<char>) -> (i: int)
    requires
        entries_map(entries).contains_key(key),
    ensures
        key_at(entries, key, i),
{
    choose|i: int| key_at(entries, key, i)
}

/// Appending a key that is not there yet inserts it.
pub proof fn lemma_push_inserts(entries: Seq<(Seq<char>, u64)>, key: Seq<char>, offset: u64)
    requires
        keys_distinct(entries),
        !entries_map(entries).contains_key(key),
    ensures
        keys_distinct(entries.push((key, offset))),
        entries_map(entries.push((key, offset))) == entries_map(entries).insert(key, offset),
{
    let after = entries.push((key, offset));
    let last = entries.len() as int;
    assert forall|i: int, j: int| 0 <= i < j < after.len() implies (#[trigger] after[i]).0 != (
    #[trigger] after[j]).0 by {
        if j == last {
            assert(after[i] == entries[i]);
            if after[i].0 == key {
                assert(key_at(entries, key, i));
            }
        } else {
            assert(after[i] == entries[i] && after[j] == entries[j]);
        }
    }
    assert forall|k: Seq<char>| #[trigger]
        entries_map(after).contains_key(k) == entries_map(entries).insert(key, offset).contains_key(
            k,
        ) by {
        if entries_map(after).contains_key(k) {
            let i = lemma_map_has_entry(after, k);
            if i < last {
                assert(key_at(entries, k, i));
            }
        }
        if entries_map(entries).contains_key(k) {
            let i = lemma_map_has_entry(entries, k);
            assert(key_at(after, k, i));
        }
        if k == key {
            assert(key_at(after, k, last));
        }
    }
    assert forall|k: Seq<char>| #[trigger]
        entries_map(after).contains_key(k) implies entries_map(after)[k] == entries_map(
        entries,
    ).insert(key, offset)[k] by {
        let i = lemma_map_has_entry(after, k);
        lemma_entry_in_map(after, i);
        if i < last {
            assert(after[i] == entries[i]);
            lemma_entry_in_map(entries, i);
        }
    }
    assert(entries_map(after) =~= entries_map(entries).insert(key, offset));
}

/// Giving the entry of a key another offset updates the key.
pub proof fn lemma_update_inserts(entries: Seq<(Seq<char>, u64)>, i: int, offset: u64)
    requires
        keys_distinct(entries),
        0 <= i < entries.len(),
    ensures
        keys_distinct(entries.update(i, (entries[i].0, offset))),
        entries_map(entries.update(i, (entries[i].0, offset))) == entries_map(entries).insert(
            entries[i].0,
            offset,
        ),
{
    let key = entries[i].0;
    let after = entries.update(i, (key, offset));
    assert forall|a: int, b: int| 0 <= a < b < after.len() implies (#[trigger] after[a]).0 != (
    #[trigger] after[b]).0 by {
        assert(after[a].0 == entries[a].0 && after[b].0 == entries[b].0);
    }
    assert forall|k: Seq<char>| #[trigger]
        entries_map(after).contains_key(k) == entries_map(entries).insert(key, offset).contains_key(
            k,
        ) by {
        if entries_map(after).contains_key(k) {
            let j = lemma_map_has_entry(after, k);
            assert(key_at(entries, k, j));
        }
        if entries_map(entries).contains_key(k) {
            let j = lemma_map_has_entry(entries, k);
            assert(key_at(after, k, j));
        }
        if k == key {
            assert(key_at(after, k, i));
        }
    }
    assert forall|k: Seq<char>| #[trigger]
        entries_map(after).contains_key(k) implies entries_map(after)[k] == entries_map(
        entries,
    ).insert(key, offset)[k] by {
        let j = lemma_map_has_entry(after, k);
        lemma_entry_in_map(after, j);
        if j != i {
            assert(after[j] == entries[j]);
            lemma_entry_in_map(entries, j);
        }
    }
    assert(entries_map(after) =~= entries_map(entries).insert(key, offset));
}

/// Taking an entry out removes its key.
pub proof fn lemma_remove_removes(entries: Seq<(Seq<char>, u64)>, i: int)
    requires
        keys_distinct(entries),
        0 <= i < entries.len(),
    ensures
        keys_distinct(entries.remove(i)),
        entries_map(entries.remove(i)) == entries_map(entries).remove(entries[i].0),
{
    let key = entries[i].0;
    let after = entries.remove(i);
    assert forall|a: int, b: int| 0 <= a < b < after.len() implies (#[trigger] after[a]).0 != (
    #[trigger] after[b]).0 by {
        let a0 = if a < i {
            a
        } else {
            a + 1
        };
        let b0 = if b < i {
            b
        } else {
            b + 1
        };
        assert(after[a] == entries[a0] && after[b] == entries[b0]);
    }
    assert forall|k: Seq<char>| #[trigger]
        entries_map(after).contains_key(k) == entries_map(entries).remove(key).contains_key(
            k,
        ) by {
        if entries_map(after).contains_key(k) {
            let j = lemma_map_has_entry(after, k);
            let j0 = if j < i {
                j
            } else {
                j + 1
            };
            assert(after[j] == entries[j0]);
            assert(key_at(entries, k, j0));
            if k == key {
                assert(entries[j0].0 == entries[i].0);
                if j0 < i {
                    assert(entries[j0].0 != entries[i].0);
                } else {
                    assert(entries[i].0 != entries[j0].0);
                }
            }
        }
        if entries_map(entries).contains_key(k) && k != key {
            let j = lemma_map_has_entry(entries, k);
            let j1 = if j < i {
                j
            } else {
                j - 1
            };
            assert(after[j1] == entries[j]);
            assert(key_at(after, k, j1));
        }
    }
    assert forall|k: Seq<char>| #[trigger]
        entries_map(after).contains_key(k) implies entries_map(after)[k] == entries_map(
        entries,
    ).remove(key)[k] by {
        let j = lemma_map_has_entry(after, k);
        lemma_entry_in_map(after, j);
        let j0 = if j < i {
            j
        } else {
            j + 1
        };
        assert(after[j] == entries[j0]);
        lemma_entry_in_map(entries, j0);
    }
    assert(entries_map(after) =~= entries_map(entries).remove(key));
}

/// Where no key occurs twice, a key occurs at one position only.
pub proof fn lemma_position_unique(entries: Seq<(Seq<char>, u64)>, key: Seq<char>, i: int)
    requires
        keys_distinct(entries),
        key_at(entries, key, i),
    ensures
        has_key(entries, key),
        position_of(entries, key) == i,
{
    let j = position_of(entries, key);
    assert(key_at(entries, key, j));
    if j < i {
        assert(entries[j].0 != entries[i].0);
    } else if i < j {
        assert(entries[i].0 != entries[j].0);
    }
}

/// Giving a key an offset inserts the pair into the mapping.
pub proof fn lemma_put_inserts(entries: Seq<(Seq<char>, u64)>, key: Seq<char>, offset: u64)
    requires
        keys_distinct(entries),
    ensures
        keys_distinct(entries_put(entries, key, offset)),
        entries_map(entries_put(entries, key, offset)) == entries_map(entries).insert(key, offset),
{
    if has_key(entries, key) {
        let i = position_of(entries, key);
        assert(key_at(entries, key, i));
        lemma_update_inserts(entries, i, offset);
    } else {
        lemma_push_inserts(entries, key, offset);
    }
}

/// Taking a key out removes it from the mapping.
pub proof fn lemma_del_removes(entries: Seq<(Seq<char>, u64)>, key: Seq<char>)
    requires
        keys_distinct(entries),
    ensures
        keys_distinct(entries_del(entries, key)),
        entries_map(entries_del(entries, key)) == entries_map(entries).remove(key),
{
    if has_key(entries, key) {
        let i = position_of(entries, key);
        assert(key_at(entries, key, i));
        lemma_remove_removes(entries, i);
    } else {
        assert(entries_map(entries) =~= entries_map(entries).remove(key));
    }
}

/// One entry of the index.
#[derive(Debug)]
pub struct IndexEntry {
    /// The key.
    pub key: String,
    /// The offset of the record that holds the key's value.
    pub offset: u64,
}

/// The index.
#[derive(Debug)]
pub struct Index {
    entries: Vec<IndexEntry>,
}

impl Index {
    /// The entries in index order, each as its key and its offset.
    pub closed spec fn entries(&self) -> Seq<(Seq<char>, u64)> {
        self.entries@.map_values(|e: IndexEntry| (e.key@, e.offset))
    }

    /// No key occurs twice.
    pub open spec fn wf(&self) -> bool {
        keys_distinct(self.entries())
    }

    /// The mapping from each live key to its offset.
    pub open spec fn view(&self) -> Map<Seq<char>, u64> {
        entries_map(self.entries())
    }

    /// The empty index.
    pub fn new() -> (index: Self)
        ensures
            index.wf(),
            index.entries() == Seq::<(Seq<char>, u64)>::empty(),
            index@ == Map::<Seq<char>, u64>::empty(),
    {
        let index = Index { entries: Vec::new() };
        assert(index.entries() =~= Seq::<(Seq<char>, u64)>::empty());
        assert(index@ =~= Map::<Seq<char>, u64>::empty());
        index
    }

    /// The number of live keys.
    pub fn len(&self) -> (n: usize)
        ensures
            n == self.entries().len(),
    {
        self.entries.len()
    }

    /// The key at position `i` of the index order.
    pub fn key(&self, i: usize) -> (key: &String)
        requires
            i < self.entries().len(),
        ensures
            key@ == self.entries()[i as int].0,
    {
        &self.entries[i].key
    }

    /// The offset at position `i` of the index order.
    pub fn offset(&self, i: usize) -> (offset: u64)
        requires
            i < self.entries().len(),
        ensures
            offset == self.entries()[i as int].1,
    {
        self.entries[i].offset
    }

    /// The position of `key` in the index order, if the key is live.
    pub fn position(&self, key: &String) -> (r: Option<usize>)
        ensures
            r matches Some(i) ==> key_at(self.entries(), key@, i as int),
            r is None ==> !self@.contains_key(key@),
    {
        let mut i: usize = 0;
        while i < self.entries.len()
            invariant
                i <= self.entries@.len(),
                forall|j: int| 0 <= j < i ==> !key_at(self.entries(), key@, j),
            decreases self.entries@.len() - i,
        {
            if self.entries[i].key == *key {
                return Some(i);
            }
            i += 1;
        }
        assert(!self@.contains_key(key@)) by {
            if self@.contains_key(key@) {
                let j = lemma_map_has_entry(self.entries(), key@);
            }
        }
        None
    }

    /// The offset of `key`, if the key is live.
    pub fn get(&self, key: &String) -> (r: Option<u64>)
        requires
            self.wf(),
        ensures
            r == if self@.contains_key(key@) {
                Some(self@[key@])
            } else {
                None
            },
    {
        match self.position(key) {
            Some(i) => {
                proof {
                    lemma_entry_in_map(self.entries(), i as int);
                }
                Some(self.entries[i].offset)
            },
            None => None,
        }
    }

    /// Makes `offset` the offset of `key`, and gives back the offset that the
    /// key had. A key that was live keeps its place in the index order; a new
    /// one comes last.
    pub fn insert_or_update(&mut self, key: String, offset: u64) -> (r: Option<u64>)
        requires
            old(self).wf(),
        ensures
            final(self).wf(),
            final(self)@ == old(self)@.insert(key@, offset),
            r == if old(self)@.contains_key(key@) {
                Some(old(self)@[key@])
            } else {
                None
            },
            final(self).entries() == entries_put(old(self).entries(), key@, offset),
    {
        let ghost before = self.entries();
        match self.position(&key) {
            Some(i) => {
                let previous = self.entries[i].offset;
                proof {
                    lemma_entry_in_map(before, i as int);
                    lemma_update_inserts(before, i as int, offset);
                }
                self.entries.set(i, IndexEntry { key, offset });
                assert(self.entries() =~= before.update(i as int, (key@, offset)));
                proof {
                    lemma_position_unique(before, key@, i as int);
                }
                Some(previous)
            },
            None => {
                proof {
                    lemma_push_inserts(before, key@, offset);
                }
                self.entries.push(IndexEntry { key, offset });
                assert(self.entries() =~= before.push((key@, offset)));
                assert(!has_key(before, key@));
                None
            },
        }
    }

    /// Takes `key` out of the index, and gives back the offset that the key
    /// had. The other keys keep their order.
    pub fn remove(&mut self, key: &String) -> (r: Option<u64>)
        requires
            old(self).wf(),
        ensures
            final(self).wf(),
            final(self)@ == old(self)@.remove(key@),
            r == if old(self)@.contains_key(key@) {
                Some(old(self)@[key@])
            } else {
                None
            },
            final(self).entries() == entries_del(old(self).entries(), key@),
    {
        let ghost before = self.entries();
        match self.position(key) {
            Some(i) => {
                proof {
                    lemma_entry_in_map(before, i as int);
                    lemma_remove_removes(before, i as int);
                }
                let entry = self.entries.remove(i);
                assert(self.entries() =~= before.remove(i as int));
                proof {
                    lemma_position_unique(before, key@, i as int);
                }
                Some(entry.offset)
            },
            None => {
                assert(self@ =~= old(self)@.remove(key@));
                assert(!has_key(before, key@));
                None
            },
        }
    }
}

} // verus!

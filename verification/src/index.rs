use vstd::prelude::*;

use crate::command::CommandPos;

verus! {

/// One key of the index and where its latest `SetValue` record lies in the log.
pub struct IndexEntry {
    pub key: String,
    pub pos: CommandPos,
}

/// The in-memory index of the store: for each live key, the position of the
/// record that holds its value. No key occurs twice.
///
/// The entries are kept in a vector and found by a linear scan. A `HashMap` keyed by `String`
/// would be quicker, but vstd's specification of `HashMap` holds only for key types that obey
/// its key model, and vstd gives that model to integer keys, not to `String`; nothing could be
/// proved of such a map without assuming it.
pub struct KeyIndex {
    entries: Vec<IndexEntry>,
}

/// Some entry holds `key`.
pub open spec fn holds_key(entries: Seq<IndexEntry>, key: Seq<char>) -> bool {
    exists|i: int| 0 <= i < entries.len() && #[trigger] entries[i].key@ == key
}

/// No two entries hold the same key.
pub open spec fn keys_distinct(entries: Seq<IndexEntry>) -> bool {
    forall|i: int, j: int|
        0 <= i < entries.len() && 0 <= j < entries.len() && i != j ==> #[trigger] entries[i].key@
            != #[trigger] entries[j].key@
}

/// The map from keys to positions that a sequence of distinct entries stands for.
pub open spec fn entries_map(entries: Seq<IndexEntry>) -> Map<Seq<char>, CommandPos> {
    Map::new(
        |k: Seq<char>| holds_key(entries, k),
        |k: Seq<char>|
            entries[choose|i: int| 0 <= i < entries.len() && #[trigger] entries[i].key@ == k].pos,
    )
}

proof fn lemma_entry_in_map(entries: Seq<IndexEntry>, i: int)
    requires
        keys_distinct(entries),
        0 <= i < entries.len(),
    ensures
        entries_map(entries).contains_key(entries[i].key@),
        entries_map(entries)[entries[i].key@] == entries[i].pos,
{
    let k = entries[i].key@;
    assert(holds_key(entries, k));
    let j = choose|j: int| 0 <= j < entries.len() && #[trigger] entries[j].key@ == k;
    assert(entries[j].key@ == k);
    assert(j == i);
}

proof fn lemma_update_entry(old_entries: Seq<IndexEntry>, i: int, e: IndexEntry)
    requires
        keys_distinct(old_entries),
        0 <= i < old_entries.len(),
        old_entries[i].key@ == e.key@,
    ensures
        keys_distinct(old_entries.update(i, e)),
        entries_map(old_entries.update(i, e)) == entries_map(old_entries).insert(e.key@, e.pos),
{
    let new_entries = old_entries.update(i, e);
    let k = e.key@;
    let pos = e.pos;
    assert(keys_distinct(new_entries)) by {
        assert forall|a: int, b: int|
            0 <= a < new_entries.len() && 0 <= b < new_entries.len() && a != b
            implies #[trigger] new_entries[a].key@ != #[trigger] new_entries[b].key@ by {
            assert(old_entries[a].key@ != old_entries[b].key@);
            if a != i && b != i {
            } else if a == i {
                assert(new_entries[b] == old_entries[b]);
                assert(old_entries[i].key@ == k);
            } else {
                assert(new_entries[a] == old_entries[a]);
                assert(old_entries[i].key@ == k);
            }
        }
    }
    assert(entries_map(new_entries) =~= entries_map(old_entries).insert(k, pos)) by {
        assert forall|k2: Seq<char>|
            holds_key(new_entries, k2) == (holds_key(old_entries, k2) || k2 == k) by {
            if holds_key(new_entries, k2) {
                let j = choose|j: int|
                    0 <= j < new_entries.len() && #[trigger] new_entries[j].key@ == k2;
                if j != i {
                    assert(old_entries[j].key@ == k2);
                }
            }
            if holds_key(old_entries, k2) {
                let j = choose|j: int|
                    0 <= j < old_entries.len() && #[trigger] old_entries[j].key@ == k2;
                if j != i {
                    assert(new_entries[j].key@ == k2);
                } else {
                    assert(new_entries[i].key@ == k);
                }
            }
            if k2 == k {
                assert(new_entries[i].key@ == k);
            }
        }
        assert forall|k2: Seq<char>| #[trigger]
            entries_map(new_entries).contains_key(k2) implies entries_map(new_entries)[k2] == entries_map(old_entries).insert(k, pos)[k2] by {
            let j = choose|j: int|
                0 <= j < new_entries.len() && #[trigger] new_entries[j].key@ == k2;
            lemma_entry_in_map(new_entries, j);
            if j != i {
                lemma_entry_in_map(old_entries, j);
            }
        }
    }
}

proof fn lemma_push_entry(old_entries: Seq<IndexEntry>, e: IndexEntry)
    requires
        keys_distinct(old_entries),
        !holds_key(old_entries, e.key@),
    ensures
        keys_distinct(old_entries.push(e)),
        entries_map(old_entries.push(e)) == entries_map(old_entries).insert(e.key@, e.pos),
{
    let new_entries = old_entries.push(e);
    let k = e.key@;
    let pos = e.pos;
    let n = old_entries.len() as int;
    assert(keys_distinct(new_entries)) by {
        assert forall|a: int, b: int|
            0 <= a < new_entries.len() && 0 <= b < new_entries.len() && a != b
            implies #[trigger] new_entries[a].key@ != #[trigger] new_entries[b].key@ by {
            if a < n && b < n {
                assert(new_entries[a] == old_entries[a]);
                assert(new_entries[b] == old_entries[b]);
            } else if a == n {
                assert(new_entries[b] == old_entries[b]);
            } else {
                assert(new_entries[a] == old_entries[a]);
            }
        }
    }
    assert(entries_map(new_entries) =~= entries_map(old_entries).insert(k, pos)) by {
        assert forall|k2: Seq<char>|
            holds_key(new_entries, k2) == (holds_key(old_entries, k2) || k2 == k) by {
            if holds_key(new_entries, k2) {
                let j = choose|j: int|
                    0 <= j < new_entries.len() && #[trigger] new_entries[j].key@ == k2;
                if j < n {
                    assert(old_entries[j].key@ == k2);
                }
            }
            if holds_key(old_entries, k2) {
                let j = choose|j: int|
                    0 <= j < old_entries.len() && #[trigger] old_entries[j].key@ == k2;
                assert(new_entries[j].key@ == k2);
            }
            if k2 == k {
                assert(new_entries[n].key@ == k);
            }
        }
        assert forall|k2: Seq<char>| #[trigger]
            entries_map(new_entries).contains_key(k2) implies entries_map(new_entries)[k2] == entries_map(old_entries).insert(k, pos)[k2] by {
            let j = choose|j: int|
                0 <= j < new_entries.len() && #[trigger] new_entries[j].key@ == k2;
            lemma_entry_in_map(new_entries, j);
            if j < n {
                lemma_entry_in_map(old_entries, j);
            }
        }
    }
}

proof fn lemma_remove_entry(old_entries: Seq<IndexEntry>, ii: int)
    requires
        keys_distinct(old_entries),
        0 <= ii < old_entries.len(),
    ensures
        keys_distinct(old_entries.remove(ii)),
        entries_map(old_entries.remove(ii)) == entries_map(old_entries).remove(old_entries[ii].key@),
{
    let new_entries = old_entries.remove(ii);
    let k = old_entries[ii].key@;
    assert(forall|j: int| 0 <= j < ii ==> new_entries[j] == old_entries[j]);
    assert(forall|j: int|
        ii <= j < new_entries.len() ==> new_entries[j] == old_entries[j + 1]);
    assert(keys_distinct(new_entries)) by {
        assert forall|a: int, b: int|
            0 <= a < new_entries.len() && 0 <= b < new_entries.len() && a != b
            implies #[trigger] new_entries[a].key@ != #[trigger] new_entries[b].key@ by {
            let oa = if a < ii { a } else { a + 1 };
            let ob = if b < ii { b } else { b + 1 };
            assert(new_entries[a] == old_entries[oa]);
            assert(new_entries[b] == old_entries[ob]);
            assert(old_entries[oa].key@ != old_entries[ob].key@);
        }
    }
    assert(entries_map(new_entries) =~= entries_map(old_entries).remove(k)) by {
        assert forall|k2: Seq<char>|
            holds_key(new_entries, k2) == (holds_key(old_entries, k2) && k2 != k) by {
            if holds_key(new_entries, k2) {
                let j = choose|j: int|
                    0 <= j < new_entries.len() && #[trigger] new_entries[j].key@ == k2;
                let oj = if j < ii { j } else { j + 1 };
                assert(new_entries[j] == old_entries[oj]);
                assert(old_entries[oj].key@ == k2);
                assert(oj != ii);
                assert(old_entries[ii].key@ == k);
                assert(old_entries[oj].key@ != old_entries[ii].key@);
            }
            if holds_key(old_entries, k2) && k2 != k {
                let j = choose|j: int|
                    0 <= j < old_entries.len() && #[trigger] old_entries[j].key@ == k2;
                assert(j != ii);
                if j < ii {
                    assert(new_entries[j].key@ == k2);
                } else {
                    assert(new_entries[j - 1] == old_entries[j]);
                    assert(new_entries[j - 1].key@ == k2);
                }
            }
        }
        assert forall|k2: Seq<char>| #[trigger]
            entries_map(new_entries).contains_key(k2) implies entries_map(new_entries)[k2] == entries_map(old_entries).remove(k)[k2] by {
            let j = choose|j: int|
                0 <= j < new_entries.len() && #[trigger] new_entries[j].key@ == k2;
            lemma_entry_in_map(new_entries, j);
            let oj = if j < ii { j } else { j + 1 };
            assert(new_entries[j] == old_entries[oj]);
            lemma_entry_in_map(old_entries, oj);
        }
    }
}

impl View for KeyIndex {
    type V = Map<Seq<char>, CommandPos>;

    closed spec fn view(&self) -> Map<Seq<char>, CommandPos> {
        entries_map(self.entries@)
    }
}

impl KeyIndex {
    /// Well-formedness: no key occurs twice.
    pub closed spec fn wf(&self) -> bool {
        keys_distinct(self.entries@)
    }

    /// The empty index.
    pub fn new() -> (idx: Self)
        ensures
            idx.wf(),
            idx@ == Map::<Seq<char>, CommandPos>::empty(),
    {
        let idx = KeyIndex { entries: Vec::new() };
        assert(idx@ =~= Map::<Seq<char>, CommandPos>::empty());
        idx
    }

    /// The position of the entry for `key`, if there is one.
    fn find(&self, key: &String) -> (r: Option<usize>)
        requires
            self.wf(),
        ensures
            match r {
                Some(i) => i < self.entries@.len() && self.entries@[i as int].key@ == key@,
                None => !holds_key(self.entries@, key@),
            },
    {
        let mut i: usize = 0;
        while i < self.entries.len()
            invariant
                i <= self.entries@.len(),
                forall|j: int| 0 <= j < i ==> self.entries@[j].key@ != key@,
            decreases self.entries@.len() - i,
        {
            if self.entries[i].key == *key {
                return Some(i);
            }
            i = i + 1;
        }
        None
    }

    /// Whether `key` is held.
    pub fn contains_key(&self, key: &String) -> (b: bool)
        requires
            self.wf(),
        ensures
            b == self@.contains_key(key@),
    {
        self.find(key).is_some()
    }

    /// The position recorded for `key`, if any.
    pub fn get(&self, key: &String) -> (r: Option<CommandPos>)
        requires
            self.wf(),
        ensures
            r == (if self@.contains_key(key@) {
                Some(self@[key@])
            } else {
                None
            }),
    {
        match self.find(key) {
            Some(i) => {
                proof {
                    lemma_entry_in_map(self.entries@, i as int);
                }
                Some(self.entries[i].pos)
            },
            None => None,
        }
    }

    /// Records `pos` for `key` and gives back the position it replaced.
    pub fn insert(&mut self, key: String, pos: CommandPos) -> (old_pos: Option<CommandPos>)
        requires
            old(self).wf(),
        ensures
            final(self).wf(),
            final(self)@ == old(self)@.insert(key@, pos),
            old_pos == (if old(self)@.contains_key(key@) {
                Some(old(self)@[key@])
            } else {
                None
            }),
    {
        let ghost old_entries = self.entries@;
        match self.find(&key) {
            Some(i) => {
                proof {
                    lemma_entry_in_map(old_entries, i as int);
                }
                let prev = self.entries[i].pos;
                let ghost e = IndexEntry { key, pos };
                proof {
                    lemma_update_entry(old_entries, i as int, e);
                }
                self.entries.set(i, IndexEntry { key, pos });
                assert(self.entries@ == old_entries.update(i as int, e));
                Some(prev)
            },
            None => {
                proof {
                    lemma_push_entry(old_entries, IndexEntry { key, pos });
                }
                self.entries.push(IndexEntry { key, pos });
                None
            },
        }
    }

    /// Drops `key` and gives back the position it had.
    pub fn remove(&mut self, key: &String) -> (old_pos: Option<CommandPos>)
        requires
            old(self).wf(),
        ensures
            final(self).wf(),
            final(self)@ == old(self)@.remove(key@),
            old_pos == (if old(self)@.contains_key(key@) {
                Some(old(self)@[key@])
            } else {
                None
            }),
    {
        let ghost old_entries = self.entries@;
        let ghost k = key@;
        match self.find(key) {
            Some(i) => {
                proof {
                    lemma_entry_in_map(old_entries, i as int);
                    lemma_remove_entry(old_entries, i as int);
                }
                let removed = self.entries.remove(i);
                Some(removed.pos)
            },
            None => {
                assert(self@ =~= old(self)@.remove(k));
                None
            },
        }
    }
}

} // verus!

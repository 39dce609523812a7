//! Tables from the addresses of a mapping, or of a mapped connection, to whatever
//! leads to it.

use vstd::prelude::*;

use crate::addr::SocketAddr;

verus! {

/// A key that can be compared.
pub trait Key: Copy {
    /// Whether two keys are the same.
    fn same(&self, other: &Self) -> (b: bool)
        ensures
            b == (*self == *other),
    ;
}

/// The addresses of a mapping: where it listens, and where it leads.
#[derive(Clone, Copy, Debug, PartialEq, Eq, Structural)]
pub struct MapKey {
    pub lst_addr: SocketAddr,
    pub dst_addr: SocketAddr,
}

/// The addresses of a mapped connection: its mapping, and the client's end.
#[derive(Clone, Copy, Debug, PartialEq, Eq, Structural)]
pub struct PortKey {
    pub lst_addr: SocketAddr,
    pub dst_addr: SocketAddr,
    pub local_addr: SocketAddr,
}

impl Key for MapKey {
    fn same(&self, other: &Self) -> (b: bool) {
        *self == *other
    }
}

impl Key for PortKey {
    fn same(&self, other: &Self) -> (b: bool) {
        *self == *other
    }
}

/// A table in which no key occurs twice.
pub struct Table<K, V> {
    entries: Vec<(K, V)>,
}

/// The position of `key` among `entries`, if it is there.
spec fn entry_at<K, V>(entries: Seq<(K, V)>, key: K, i: int) -> bool {
    0 <= i < entries.len() && entries[i].0 == key
}

/// The table that `entries` stand for.
spec fn entries_map<K, V>(entries: Seq<(K, V)>) -> Map<K, V> {
    Map::new(
        |k: K| exists|i: int| entry_at(entries, k, i),
        |k: K| entries[choose|i: int| entry_at(entries, k, i)].1,
    )
}

spec fn entries_distinct<K, V>(entries: Seq<(K, V)>) -> bool {
    forall|i: int, j: int|
        0 <= i < entries.len() && 0 <= j < entries.len() && #[trigger] entries[i].0
            == #[trigger] entries[j].0 ==> i == j
}

proof fn lemma_entry<K, V>(entries: Seq<(K, V)>, i: int)
    requires
        entries_distinct(entries),
        0 <= i < entries.len(),
    ensures
        entries_map(entries).contains_key(entries[i].0),
        entries_map(entries)[entries[i].0] == entries[i].1,
{
    assert(entry_at(entries, entries[i].0, i));
}

impl<K, V> View for Table<K, V> {
    type V = Map<K, V>;

    closed spec fn view(&self) -> Map<K, V> {
        entries_map(self.entries@)
    }
}

impl<K: Key, V> Table<K, V> {
    /// No key occurs twice.
    pub closed spec fn wf(&self) -> bool {
        entries_distinct(self.entries@)
    }

    /// A table without entries.
    pub fn new() -> (t: Self)
        ensures
            t.wf(),
            t@ == Map::<K, V>::empty(),
    {
        let t = Table { entries: Vec::new() };
        assert(t@ =~= Map::<K, V>::empty());
        t
    }

    fn find(&self, key: &K) -> (at: Option<usize>)
        requires
            self.wf(),
        ensures
            match at {
                Some(i) => {
                    &&& i < self.entries@.len()
                    &&& self.entries@[i as int].0 == *key
                    &&& self@.contains_key(*key)
                    &&& self@[*key] == self.entries@[i as int].1
                },
                None => {
                    &&& !self@.contains_key(*key)
                    &&& forall|j: int|
                        0 <= j < self.entries@.len() ==> (#[trigger] self.entries@[j]).0 != *key
                },
            },
    {
        let mut i: usize = 0;
        while i < self.entries.len()
            invariant
                self.wf(),
                i <= self.entries@.len(),
                forall|j: int| 0 <= j < i ==> (#[trigger] self.entries@[j]).0 != *key,
            decreases self.entries@.len() - i,
        {
            if self.entries[i].0.same(key) {
                proof {
                    lemma_entry(self.entries@, i as int);
                }
                return Some(i);
            }
            i = i + 1;
        }
        None
    }

    /// Whether there is an entry for `key`.
    pub fn contains_key(&self, key: &K) -> (b: bool)
        requires
            self.wf(),
        ensures
            b == self@.contains_key(*key),
    {
        self.find(key).is_some()
    }

    /// The entry for `key`.
    pub fn get(&self, key: &K) -> (v: Option<&V>)
        requires
            self.wf(),
        ensures
            match v {
                Some(v) => self@.contains_key(*key) && *v == self@[*key],
                None => !self@.contains_key(*key),
            },
    {
        match self.find(key) {
            Some(i) => Some(&self.entries[i].1),
            None => None,
        }
    }

    /// Removes the entry for `key`, if there is one.
    pub fn remove(&mut self, key: &K)
        requires
            old(self).wf(),
        ensures
            final(self).wf(),
            final(self)@ == old(self)@.remove(*key),
    {
        if let Some(at) = self.find(key) {
            let ghost before = self.entries@;
            let _ = self.entries.remove(at);
            proof {
                let after = self.entries@;
                assert forall|i: int, j: int|
                    0 <= i < after.len() && 0 <= j < after.len() && #[trigger] after[i].0
                        == #[trigger] after[j].0 implies i == j by {
                    let i0 = if i < at { i } else { i + 1 };
                    let j0 = if j < at { j } else { j + 1 };
                    assert(before[i0].0 == before[j0].0);
                }
                assert forall|k: K| entries_map(after).contains_key(k) <==> entries_map(
                    before,
                ).remove(*key).contains_key(k) by {
                    if entries_map(after).contains_key(k) {
                        let i = choose|i: int| entry_at(after, k, i);
                        let i0 = if i < at { i } else { i + 1 };
                        assert(entry_at(before, k, i0));
                        assert(before[i0].0 != before[at as int].0);
                    }
                    if entries_map(before).remove(*key).contains_key(k) {
                        let i0 = choose|i: int| entry_at(before, k, i);
                        let i = if i0 < at { i0 } else { i0 - 1 };
                        assert(entry_at(after, k, i));
                    }
                }
                assert forall|k: K| entries_map(after).contains_key(k) implies entries_map(after)[k]
                    == entries_map(before).remove(*key)[k] by {
                    let i = choose|i: int| entry_at(after, k, i);
                    let i0 = if i < at { i } else { i + 1 };
                    lemma_entry(after, i);
                    lemma_entry(before, i0);
                }
                assert(entries_map(after) =~= entries_map(before).remove(*key));
            }
        } else {
            assert(self@.remove(*key) =~= self@);
        }
    }

    /// Sets the entry for `key`; an entry that was there is replaced.
    pub fn insert(&mut self, key: K, value: V)
        requires
            old(self).wf(),
        ensures
            final(self).wf(),
            final(self)@ == old(self)@.insert(key, value),
    {
        self.remove(&key);
        let ghost before = self.entries@;
        proof {
            if exists|i: int| entry_at(before, key, i) {
                assert(self@.contains_key(key));
            }
        }
        self.entries.push((key, value));
        proof {
            let after = self.entries@;
            let last = before.len() as int;
            assert forall|i: int, j: int|
                0 <= i < after.len() && 0 <= j < after.len() && #[trigger] after[i].0
                    == #[trigger] after[j].0 implies i == j by {
                if i < last {
                    assert(!entry_at(before, key, i));
                }
                if j < last {
                    assert(!entry_at(before, key, j));
                }
            }
            assert forall|k: K| entries_map(after).contains_key(k) <==> entries_map(before).insert(
                key,
                value,
            ).contains_key(k) by {
                if entries_map(after).contains_key(k) {
                    let i = choose|i: int| entry_at(after, k, i);
                    if i < last {
                        assert(entry_at(before, k, i));
                    }
                }
                if entries_map(before).insert(key, value).contains_key(k) {
                    if k == key {
                        assert(entry_at(after, k, last));
                    } else {
                        let i = choose|i: int| entry_at(before, k, i);
                        assert(entry_at(after, k, i));
                    }
                }
            }
            assert forall|k: K| entries_map(after).contains_key(k) implies entries_map(after)[k]
                == entries_map(before).insert(key, value)[k] by {
                let i = choose|i: int| entry_at(after, k, i);
                lemma_entry(after, i);
                if i < last {
                    lemma_entry(before, i);
                }
            }
            assert(entries_map(after) =~= old(self)@.insert(key, value));
        }
    }

    /// The keys, each once.
    pub fn keys(&self) -> (keys: Vec<K>)
        requires
            self.wf(),
        ensures
            keys@.no_duplicates(),
            forall|k: K| keys@.contains(k) <==> self@.contains_key(k),
    {
        let mut keys: Vec<K> = Vec::new();
        let mut i: usize = 0;
        while i < self.entries.len()
            invariant
                i <= self.entries@.len(),
                keys@.len() == i,
                forall|j: int| 0 <= j < i ==> #[trigger] keys@[j] == self.entries@[j].0,
            decreases self.entries@.len() - i,
        {
            keys.push(self.entries[i].0);
            i = i + 1;
        }
        proof {
            let entries = self.entries@;
            assert forall|k: K| keys@.contains(k) <==> self@.contains_key(k) by {
                if keys@.contains(k) {
                    let j = choose|j: int| 0 <= j < keys@.len() && keys@[j] == k;
                    assert(entry_at(entries, k, j));
                }
                if self@.contains_key(k) {
                    let j = choose|j: int| entry_at(entries, k, j);
                    assert(keys@[j] == k);
                }
            }
            assert forall|i: int, j: int|
                0 <= i < keys@.len() && 0 <= j < keys@.len() && i != j implies keys@[i]
                != keys@[j] by {
                assert(entries[i].0 == keys@[i] && entries[j].0 == keys@[j]);
            }
        }
        keys
    }
}

} // verus!

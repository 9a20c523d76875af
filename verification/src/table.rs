//! A finite map keyed by arena index.

use vstd::prelude::*;

verus! {

/// The map an index entry list stands for: each key to the index of its entry.
pub open spec fn table_map_of<V>(entries: Seq<(usize, V)>) -> Map<usize, V>
    decreases entries.len(),
{
    if entries.len() == 0 {
        Map::empty()
    } else {
        table_map_of(entries.drop_last()).insert(entries.last().0, entries.last().1)
    }
}

pub open spec fn table_keys_unique<V>(entries: Seq<(usize, V)>) -> bool {
    forall|i: int, j: int|
        0 <= i < j < entries.len() ==> (#[trigger] entries[i]).0 != (#[trigger] entries[j]).0
}

pub proof fn lemma_table_map_of<V>(entries: Seq<(usize, V)>)
    requires
        table_keys_unique(entries),
    ensures
        forall|k: usize|
            table_map_of(entries).contains_key(k) <==> exists|i: int|
                0 <= i < entries.len() && (#[trigger] entries[i]).0 == k,
        forall|i: int|
            0 <= i < entries.len() ==> table_map_of(entries).contains_key((#[trigger] entries[i]).0)
                && table_map_of(entries)[entries[i].0] == entries[i].1,
        table_map_of(entries).dom().finite(),
    decreases entries.len(),
{
    if entries.len() > 0 {
        let prefix = entries.drop_last();
        assert(table_keys_unique(prefix)) by {
            assert forall|i: int, j: int| 0 <= i < j < prefix.len() implies (#[trigger] prefix[i]).0
                != (#[trigger] prefix[j]).0 by {
                assert(prefix[i] == entries[i]);
                assert(prefix[j] == entries[j]);
            }
        }
        lemma_table_map_of(prefix);
        assert forall|k: usize|
            table_map_of(entries).contains_key(k) implies exists|i: int|
                0 <= i < entries.len() && (#[trigger] entries[i]).0 == k by {
            if k == entries.last().0 {
                assert(entries[entries.len() - 1].0 == k);
            } else {
                let i = choose|i: int| 0 <= i < prefix.len() && (#[trigger] prefix[i]).0 == k;
                assert(entries[i] == prefix[i]);
            }
        }
        assert forall|i: int|
            0 <= i < entries.len() implies table_map_of(entries).contains_key(
                (#[trigger] entries[i]).0,
            ) && table_map_of(entries)[entries[i].0] == entries[i].1 by {
            if i < entries.len() - 1 {
                assert(prefix[i] == entries[i]);
                assert(entries[i].0 != entries[entries.len() - 1].0);
            }
        }
        assert forall|k: usize|
            (exists|i: int| 0 <= i < entries.len() && (#[trigger] entries[i]).0 == k) implies table_map_of(
                entries,
            ).contains_key(k) by {
            let i = choose|i: int| 0 <= i < entries.len() && (#[trigger] entries[i]).0 == k;
            if i < entries.len() - 1 {
                assert(prefix[i] == entries[i]);
            }
        }
    }
}

/// A finite map keyed by arena index, kept as a list of distinct keys.
#[derive(Debug)]
pub struct SlotTable<V> {
    entries: Vec<(usize, V)>,
}

impl<V> View for SlotTable<V> {
    type V = Map<usize, V>;

    closed spec fn view(&self) -> Map<usize, V> {
        table_map_of(self.entries@)
    }
}

impl<V: Copy> SlotTable<V> {
    pub closed spec fn wf(&self) -> bool {
        table_keys_unique(self.entries@)
    }

    /// The entries in insertion order.
    pub closed spec fn entries_seq(&self) -> Seq<(usize, V)> {
        self.entries@
    }

    pub proof fn lemma_view(&self)
        requires
            self.wf(),
        ensures
            forall|k: usize|
                self@.contains_key(k) <==> exists|i: int|
                    0 <= i < self.entries_seq().len() && (#[trigger] self.entries_seq()[i]).0 == k,
            forall|i: int|
                0 <= i < self.entries_seq().len() ==> self@.contains_key(
                    (#[trigger] self.entries_seq()[i]).0,
                ) && self@[self.entries_seq()[i].0] == self.entries_seq()[i].1,
            self@.dom().finite(),
            self.entries_seq().len() == self@.dom().len(),
    {
        lemma_table_map_of(self.entries@);
        lemma_table_unique_len(self.entries@);
        assert forall|k: usize|
            self@.contains_key(k) <==> exists|i: int|
                0 <= i < self.entries_seq().len() && (#[trigger] self.entries_seq()[i]).0 == k by {
            if self@.contains_key(k) {
                let i = choose|i: int| 0 <= i < self.entries@.len() && (#[trigger] self.entries@[i]).0 == k;
                assert(self.entries_seq()[i] == self.entries@[i]);
            }
        }
    }

    pub fn new() -> (m: SlotTable<V>)
        ensures
            m.wf(),
            m@ == Map::<usize, V>::empty(),
    {
        SlotTable { entries: Vec::new() }
    }

    pub fn len(&self) -> (n: usize)
        ensures
            n == self.entries_seq().len(),
    {
        self.entries.len()
    }

    /// The `i`-th entry in insertion order.
    pub fn entry(&self, i: usize) -> (e: (usize, V))
        requires
            i < self.entries_seq().len(),
        ensures
            e.0 == self.entries_seq()[i as int].0,
            e.1 == self.entries_seq()[i as int].1,
    {
        (self.entries[i].0, self.entries[i].1)
    }

    fn find(&self, key: usize) -> (r: Option<usize>)
        requires
            self.wf(),
        ensures
            match r {
                Some(i) => i < self.entries@.len() && self.entries@[i as int].0 == key,
                None => forall|i: int| 0 <= i < self.entries@.len() ==> (#[trigger] self.entries@[i]).0 != key,
            },
    {
        let mut i: usize = 0;
        while i < self.entries.len()
            invariant
                i <= self.entries@.len(),
                forall|j: int| 0 <= j < i ==> (#[trigger] self.entries@[j]).0 != key,
            decreases self.entries@.len() - i,
        {
            if self.entries[i].0 == key {
                return Some(i);
            }
            i = i + 1;
        }
        None
    }

    pub fn get(&self, key: usize) -> (r: Option<V>)
        requires
            self.wf(),
        ensures
            match r {
                Some(v) => self@.contains_key(key) && self@[key] == v,
                None => !self@.contains_key(key),
            },
    {
        proof {
            lemma_table_map_of(self.entries@);
        }
        match self.find(key) {
            Some(i) => Some(self.entries[i].1),
            None => None,
        }
    }

    pub fn contains_key(&self, key: usize) -> (b: bool)
        requires
            self.wf(),
        ensures
            b == self@.contains_key(key),
    {
        proof {
            lemma_table_map_of(self.entries@);
        }
        self.find(key).is_some()
    }

    /// Binds `key` to `value`, replacing an earlier binding of `key`.
    pub fn insert(&mut self, key: usize, value: V)
        requires
            old(self).wf(),
        ensures
            final(self).wf(),
            final(self)@ == old(self)@.insert(key, value),
    {
        proof {
            lemma_table_map_of(self.entries@);
        }
        match self.find(key) {
            Some(i) => {
                let ghost before = self.entries@;
                self.entries.set(i, (key, value));
                proof {
                    let after = self.entries@;
                    assert(table_keys_unique(after)) by {
                        assert forall|a: int, b: int| 0 <= a < b < after.len() implies (#[trigger] after[a]).0
                            != (#[trigger] after[b]).0 by {
                            if a != i && b != i {
                                assert(after[a] == before[a] && after[b] == before[b]);
                            } else if a == i {
                                assert(after[b] == before[b]);
                            } else {
                                assert(after[a] == before[a]);
                            }
                        }
                    }
                    lemma_table_map_of(after);
                    lemma_table_map_of(before);
                    assert(table_map_of(after) =~= table_map_of(before).insert(key, value)) by {
                        assert forall|k: usize| #[trigger] table_map_of(after).contains_key(k) <==> table_map_of(
                            before,
                        ).insert(key, value).contains_key(k) by {
                            if table_map_of(after).contains_key(k) {
                                let j = choose|j: int| 0 <= j < after.len() && (#[trigger] after[j]).0 == k;
                                if j != i {
                                    assert(after[j] == before[j]);
                                }
                            }
                            if table_map_of(before).contains_key(k) && k != key {
                                let j = choose|j: int| 0 <= j < before.len() && (#[trigger] before[j]).0 == k;
                                assert(j != i);
                                assert(after[j] == before[j]);
                            }
                            assert(after[i as int].0 == key);
                        }
                        assert forall|k: usize| #[trigger] table_map_of(after).contains_key(k) implies table_map_of(
                            after,
                        )[k] == table_map_of(before).insert(key, value)[k] by {
                            let j = choose|j: int| 0 <= j < after.len() && (#[trigger] after[j]).0 == k;
                            if j != i {
                                assert(after[j] == before[j]);
                            }
                        }
                    }
                }
            },
            None => {
                let ghost before = self.entries@;
                self.entries.push((key, value));
                proof {
                    let after = self.entries@;
                    assert(after.drop_last() =~= before);
                    assert(table_keys_unique(after)) by {
                        assert forall|a: int, b: int| 0 <= a < b < after.len() implies (#[trigger] after[a]).0
                            != (#[trigger] after[b]).0 by {
                            if b < after.len() - 1 {
                                assert(after[a] == before[a] && after[b] == before[b]);
                            } else {
                                assert(after[a] == before[a]);
                            }
                        }
                    }
                }
            },
        }
    }

    pub fn clone_map(&self) -> (m: SlotTable<V>)
        requires
            self.wf(),
        ensures
            m.wf(),
            m@ == self@,
            m.entries_seq() == self.entries_seq(),
    {
        let mut entries: Vec<(usize, V)> = Vec::new();
        let mut i: usize = 0;
        while i < self.entries.len()
            invariant
                i <= self.entries@.len(),
                entries@ == self.entries@.subrange(0, i as int),
            decreases self.entries@.len() - i,
        {
            let e = (self.entries[i].0, self.entries[i].1);
            entries.push(e);
            proof {
                assert(entries@ =~= self.entries@.subrange(0, i as int + 1));
            }
            i = i + 1;
        }
        proof {
            assert(entries@ =~= self.entries@);
        }
        SlotTable { entries }
    }

    /// Adds every binding of `other`, replacing earlier bindings of the same names.
    pub fn extend_overwrite(&mut self, other: &SlotTable<V>)
        requires
            old(self).wf(),
            other.wf(),
        ensures
            final(self).wf(),
            final(self)@ == old(self)@.union_prefer_right(other@),
    {
        let ghost start = self@;
        let mut i: usize = 0;
        while i < other.entries.len()
            invariant
                self.wf(),
                other.wf(),
                i <= other.entries@.len(),
                self@ == start.union_prefer_right(table_map_of(other.entries@.subrange(0, i as int))),
            decreases other.entries@.len() - i,
        {
            let k = other.entries[i].0.clone();
            let v = other.entries[i].1;
            self.insert(k, v);
            proof {
                let prefix = other.entries@.subrange(0, i as int + 1);
                assert(prefix.drop_last() =~= other.entries@.subrange(0, i as int));
                assert(self@ =~= start.union_prefer_right(table_map_of(prefix)));
            }
            i = i + 1;
        }
        proof {
            assert(other.entries@.subrange(0, other.entries@.len() as int) =~= other.entries@);
        }
    }
}

proof fn lemma_table_unique_len<V>(entries: Seq<(usize, V)>)
    requires
        table_keys_unique(entries),
    ensures
        table_map_of(entries).dom().len() == entries.len(),
        table_map_of(entries).dom().finite(),
    decreases entries.len(),
{
    if entries.len() > 0 {
        let prefix = entries.drop_last();
        assert(table_keys_unique(prefix)) by {
            assert forall|i: int, j: int| 0 <= i < j < prefix.len() implies (#[trigger] prefix[i]).0
                != (#[trigger] prefix[j]).0 by {
                assert(prefix[i] == entries[i]);
                assert(prefix[j] == entries[j]);
            }
        }
        lemma_table_unique_len(prefix);
        lemma_table_map_of(prefix);
        assert(!table_map_of(prefix).contains_key(entries.last().0)) by {
            if table_map_of(prefix).contains_key(entries.last().0) {
                let i = choose|i: int| 0 <= i < prefix.len() && (#[trigger] prefix[i]).0 == entries.last().0;
                assert(prefix[i] == entries[i]);
            }
        }
    }
}

} // verus!

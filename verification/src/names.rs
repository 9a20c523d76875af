//! An insertion-ordered table from names to names.

use vstd::prelude::*;

use crate::text::str_eq;

verus! {

/// The map an entry list stands for: each key to the value of its entry.
pub open spec fn map_of(entries: Seq<(String, String)>) -> Map<Seq<char>, Seq<char>>
    decreases entries.len(),
{
    if entries.len() == 0 {
        Map::empty()
    } else {
        map_of(entries.drop_last()).insert(entries.last().0@, entries.last().1@)
    }
}

pub open spec fn keys_unique(entries: Seq<(String, String)>) -> bool {
    forall|i: int, j: int|
        0 <= i < j < entries.len() ==> (#[trigger] entries[i]).0@ != (#[trigger] entries[j]).0@
}

pub proof fn lemma_map_of(entries: Seq<(String, String)>)
    requires
        keys_unique(entries),
    ensures
        forall|k: Seq<char>|
            map_of(entries).contains_key(k) <==> exists|i: int|
                0 <= i < entries.len() && (#[trigger] entries[i]).0@ == k,
        forall|i: int|
            0 <= i < entries.len() ==> map_of(entries).contains_key((#[trigger] entries[i]).0@)
                && map_of(entries)[entries[i].0@] == entries[i].1@,
        map_of(entries).dom().finite(),
    decreases entries.len(),
{
    if entries.len() > 0 {
        let prefix = entries.drop_last();
        assert(keys_unique(prefix)) by {
            assert forall|i: int, j: int| 0 <= i < j < prefix.len() implies (#[trigger] prefix[i]).0@
                != (#[trigger] prefix[j]).0@ by {
                assert(prefix[i] == entries[i]);
                assert(prefix[j] == entries[j]);
            }
        }
        lemma_map_of(prefix);
        assert forall|k: Seq<char>|
            map_of(entries).contains_key(k) implies exists|i: int|
                0 <= i < entries.len() && (#[trigger] entries[i]).0@ == k by {
            if k == entries.last().0@ {
                assert(entries[entries.len() - 1].0@ == k);
            } else {
                let i = choose|i: int| 0 <= i < prefix.len() && (#[trigger] prefix[i]).0@ == k;
                assert(entries[i] == prefix[i]);
            }
        }
        assert forall|i: int|
            0 <= i < entries.len() implies map_of(entries).contains_key(
                (#[trigger] entries[i]).0@,
            ) && map_of(entries)[entries[i].0@] == entries[i].1@ by {
            if i < entries.len() - 1 {
                assert(prefix[i] == entries[i]);
                assert(entries[i].0@ != entries[entries.len() - 1].0@);
            }
        }
        assert forall|k: Seq<char>|
            (exists|i: int| 0 <= i < entries.len() && (#[trigger] entries[i]).0@ == k) implies map_of(
                entries,
            ).contains_key(k) by {
            let i = choose|i: int| 0 <= i < entries.len() && (#[trigger] entries[i]).0@ == k;
            if i < entries.len() - 1 {
                assert(prefix[i] == entries[i]);
            }
        }
    }
}

/// A finite map from names to names that remembers insertion order.
#[derive(Debug)]
pub struct NameMap {
    entries: Vec<(String, String)>,
}

impl View for NameMap {
    type V = Map<Seq<char>, Seq<char>>;

    closed spec fn view(&self) -> Map<Seq<char>, Seq<char>> {
        map_of(self.entries@)
    }
}

impl NameMap {
    pub closed spec fn wf(&self) -> bool {
        keys_unique(self.entries@)
    }

    /// The entries in insertion order.
    pub closed spec fn entries_seq(&self) -> Seq<(String, String)> {
        self.entries@
    }

    pub proof fn lemma_view(&self)
        requires
            self.wf(),
        ensures
            forall|k: Seq<char>|
                self@.contains_key(k) <==> exists|i: int|
                    0 <= i < self.entries_seq().len() && (#[trigger] self.entries_seq()[i]).0@ == k,
            forall|i: int|
                0 <= i < self.entries_seq().len() ==> self@.contains_key(
                    (#[trigger] self.entries_seq()[i]).0@,
                ) && self@[self.entries_seq()[i].0@] == self.entries_seq()[i].1@,
            self@.dom().finite(),
            self.entries_seq().len() == self@.dom().len(),
    {
        lemma_map_of(self.entries@);
        lemma_unique_len(self.entries@);
        assert forall|k: Seq<char>|
            self@.contains_key(k) <==> exists|i: int|
                0 <= i < self.entries_seq().len() && (#[trigger] self.entries_seq()[i]).0@ == k by {
            if self@.contains_key(k) {
                let i = choose|i: int| 0 <= i < self.entries@.len() && (#[trigger] self.entries@[i]).0@ == k;
                assert(self.entries_seq()[i] == self.entries@[i]);
            }
        }
    }

    pub fn new() -> (m: NameMap)
        ensures
            m.wf(),
            m@ == Map::<Seq<char>, Seq<char>>::empty(),
    {
        NameMap { entries: Vec::new() }
    }

    pub fn len(&self) -> (n: usize)
        ensures
            n == self.entries_seq().len(),
    {
        self.entries.len()
    }

    /// The `i`-th entry in insertion order.
    pub fn entry(&self, i: usize) -> (e: (&String, &String))
        requires
            i < self.entries_seq().len(),
        ensures
            *e.0 == self.entries_seq()[i as int].0,
            *e.1 == self.entries_seq()[i as int].1,
    {
        (&self.entries[i].0, &self.entries[i].1)
    }

    fn find(&self, key: &String) -> (r: Option<usize>)
        requires
            self.wf(),
        ensures
            match r {
                Some(i) => i < self.entries@.len() && self.entries@[i as int].0@ == key@,
                None => forall|i: int| 0 <= i < self.entries@.len() ==> (#[trigger] self.entries@[i]).0@ != key@,
            },
    {
        let mut i: usize = 0;
        while i < self.entries.len()
            invariant
                i <= self.entries@.len(),
                forall|j: int| 0 <= j < i ==> (#[trigger] self.entries@[j]).0@ != key@,
            decreases self.entries@.len() - i,
        {
            if str_eq(&self.entries[i].0, key) {
                return Some(i);
            }
            i = i + 1;
        }
        None
    }

    pub fn get(&self, key: &String) -> (r: Option<&String>)
        requires
            self.wf(),
        ensures
            match r {
                Some(v) => self@.contains_key(key@) && self@[key@] == v@,
                None => !self@.contains_key(key@),
            },
    {
        proof {
            lemma_map_of(self.entries@);
        }
        match self.find(key) {
            Some(i) => Some(&self.entries[i].1),
            None => None,
        }
    }

    pub fn contains_key(&self, key: &String) -> (b: bool)
        requires
            self.wf(),
        ensures
            b == self@.contains_key(key@),
    {
        proof {
            lemma_map_of(self.entries@);
        }
        self.find(key).is_some()
    }

    /// Binds `key` to `value`, replacing an earlier binding of `key`.
    pub fn insert(&mut self, key: String, value: String)
        requires
            old(self).wf(),
        ensures
            final(self).wf(),
            final(self)@ == old(self)@.insert(key@, value@),
    {
        proof {
            lemma_map_of(self.entries@);
        }
        match self.find(&key) {
            Some(i) => {
                let ghost before = self.entries@;
                self.entries.set(i, (key, value));
                proof {
                    let after = self.entries@;
                    assert(keys_unique(after)) by {
                        assert forall|a: int, b: int| 0 <= a < b < after.len() implies (#[trigger] after[a]).0@
                            != (#[trigger] after[b]).0@ by {
                            if a != i && b != i {
                                assert(after[a] == before[a] && after[b] == before[b]);
                            } else if a == i {
                                assert(after[b] == before[b]);
                            } else {
                                assert(after[a] == before[a]);
                            }
                        }
                    }
                    lemma_map_of(after);
                    lemma_map_of(before);
                    assert(map_of(after) =~= map_of(before).insert(key@, value@)) by {
                        assert forall|k: Seq<char>| #[trigger] map_of(after).contains_key(k) <==> map_of(
                            before,
                        ).insert(key@, value@).contains_key(k) by {
                            if map_of(after).contains_key(k) {
                                let j = choose|j: int| 0 <= j < after.len() && (#[trigger] after[j]).0@ == k;
                                if j != i {
                                    assert(after[j] == before[j]);
                                }
                            }
                            if map_of(before).contains_key(k) && k != key@ {
                                let j = choose|j: int| 0 <= j < before.len() && (#[trigger] before[j]).0@ == k;
                                assert(j != i);
                                assert(after[j] == before[j]);
                            }
                            assert(after[i as int].0@ == key@);
                        }
                        assert forall|k: Seq<char>| #[trigger] map_of(after).contains_key(k) implies map_of(
                            after,
                        )[k] == map_of(before).insert(key@, value@)[k] by {
                            let j = choose|j: int| 0 <= j < after.len() && (#[trigger] after[j]).0@ == k;
                            if j != i {
                                assert(after[j] == before[j]);
                            }
                        }
                    }
                }
            },
            None => {
                let ghost before = self.entries@;
                self.entries.push((key, value));
                proof {
                    let after = self.entries@;
                    assert(after.drop_last() =~= before);
                    assert(keys_unique(after)) by {
                        assert forall|a: int, b: int| 0 <= a < b < after.len() implies (#[trigger] after[a]).0@
                            != (#[trigger] after[b]).0@ by {
                            if b < after.len() - 1 {
                                assert(after[a] == before[a] && after[b] == before[b]);
                            } else {
                                assert(after[a] == before[a]);
                            }
                        }
                    }
                }
            },
        }
    }

    /// Binds `key` to `value` unless `key` is bound already.
    pub fn insert_if_absent(&mut self, key: String, value: String)
        requires
            old(self).wf(),
        ensures
            final(self).wf(),
            final(self)@ == (if old(self)@.contains_key(key@) {
                old(self)@
            } else {
                old(self)@.insert(key@, value@)
            }),
    {
        if !self.contains_key(&key) {
            self.insert(key, value);
        }
    }

    pub fn clone_map(&self) -> (m: NameMap)
        requires
            self.wf(),
        ensures
            m.wf(),
            m@ == self@,
            m.entries_seq() == self.entries_seq(),
    {
        let mut entries: Vec<(String, String)> = Vec::new();
        let mut i: usize = 0;
        while i < self.entries.len()
            invariant
                i <= self.entries@.len(),
                entries@ == self.entries@.subrange(0, i as int),
            decreases self.entries@.len() - i,
        {
            let e = (self.entries[i].0.clone(), self.entries[i].1.clone());
            entries.push(e);
            proof {
                assert(entries@ =~= self.entries@.subrange(0, i as int + 1));
            }
            i = i + 1;
        }
        proof {
            assert(entries@ =~= self.entries@);
        }
        NameMap { entries }
    }

    /// Adds every binding of `other` whose name is not bound yet.
    pub fn extend_if_absent(&mut self, other: &NameMap)
        requires
            old(self).wf(),
            other.wf(),
        ensures
            final(self).wf(),
            final(self)@ == other@.union_prefer_right(old(self)@),
    {
        proof {
            lemma_map_of(other.entries@);
        }
        let ghost start = self@;
        let mut i: usize = 0;
        while i < other.entries.len()
            invariant
                self.wf(),
                other.wf(),
                i <= other.entries@.len(),
                self@ == map_of(other.entries@.subrange(0, i as int)).union_prefer_right(start),
            decreases other.entries@.len() - i,
        {
            let ghost before = self@;
            let k = other.entries[i].0.clone();
            let v = other.entries[i].1.clone();
            proof {
                let prefix0 = other.entries@.subrange(0, i as int);
                assert(keys_unique(prefix0)) by {
                    assert forall|a: int, b: int| 0 <= a < b < prefix0.len() implies (#[trigger] prefix0[a]).0@
                        != (#[trigger] prefix0[b]).0@ by {
                        assert(prefix0[a] == other.entries@[a]);
                        assert(prefix0[b] == other.entries@[b]);
                    }
                }
                lemma_map_of(prefix0);
                if map_of(prefix0).contains_key(k@) {
                    let j = choose|j: int| 0 <= j < prefix0.len() && (#[trigger] prefix0[j]).0@ == k@;
                    assert(prefix0[j] == other.entries@[j]);
                    assert(false);
                }
            }
            self.insert_if_absent(k, v);
            proof {
                let prefix = other.entries@.subrange(0, i as int + 1);
                assert(prefix.drop_last() =~= other.entries@.subrange(0, i as int));
                assert(self@ =~= map_of(prefix).union_prefer_right(start));
            }
            i = i + 1;
        }
        proof {
            assert(other.entries@.subrange(0, other.entries@.len() as int) =~= other.entries@);
        }
    }

    /// Adds every binding of `other`, replacing earlier bindings of the same names.
    pub fn extend_overwrite(&mut self, other: &NameMap)
        requires
            old(self).wf(),
            other.wf(),
        ensures
            final(self).wf(),
            final(self)@ == old(self)@.union_prefer_right(other@),
    {
        let ghost start = self@;
        let mut i: usize = 0;
        while i < other.entries.len()
            invariant
                self.wf(),
                other.wf(),
                i <= other.entries@.len(),
                self@ == start.union_prefer_right(map_of(other.entries@.subrange(0, i as int))),
            decreases other.entries@.len() - i,
        {
            let k = other.entries[i].0.clone();
            let v = other.entries[i].1.clone();
            self.insert(k, v);
            proof {
                let prefix = other.entries@.subrange(0, i as int + 1);
                assert(prefix.drop_last() =~= other.entries@.subrange(0, i as int));
                assert(self@ =~= start.union_prefer_right(map_of(prefix)));
            }
            i = i + 1;
        }
        proof {
            assert(other.entries@.subrange(0, other.entries@.len() as int) =~= other.entries@);
        }
    }

    /// Whether the two maps bind the same names to the same names.
    pub fn same_as(&self, other: &NameMap) -> (b: bool)
        requires
            self.wf(),
            other.wf(),
        ensures
            b == (self@ == other@),
    {
        proof {
            lemma_map_of(self.entries@);
            lemma_map_of(other.entries@);
        }
        if !self.included_in(other) {
            return false;
        }
        if !other.included_in(self) {
            return false;
        }
        proof {
            assert(self@ =~= other@);
        }
        true
    }

    /// Every binding of `self` is a binding of `other`.
    fn included_in(&self, other: &NameMap) -> (b: bool)
        requires
            self.wf(),
            other.wf(),
        ensures
            b == (forall|k: Seq<char>| #[trigger] self@.contains_key(k) ==> other@.contains_key(k)
                && other@[k] == self@[k]),
    {
        proof {
            lemma_map_of(self.entries@);
            lemma_map_of(other.entries@);
        }
        let mut i: usize = 0;
        while i < self.entries.len()
            invariant
                self.wf(),
                other.wf(),
                i <= self.entries@.len(),
                forall|j: int|
                    0 <= j < i ==> other@.contains_key((#[trigger] self.entries@[j]).0@)
                        && other@[self.entries@[j].0@] == self.entries@[j].1@,
            decreases self.entries@.len() - i,
        {
            proof {
                lemma_map_of(self.entries@);
            }
            match other.get(&self.entries[i].0) {
                Some(v) => {
                    if !str_eq(v, &self.entries[i].1) {
                        proof {
                            let k = self.entries@[i as int].0@;
                            assert(self@.contains_key(k) && self@[k] == self.entries@[i as int].1@);
                        }
                        return false;
                    }
                },
                None => {
                    proof {
                        let k = self.entries@[i as int].0@;
                        assert(self@.contains_key(k));
                    }
                    return false;
                },
            }
            i = i + 1;
        }
        proof {
            lemma_map_of(self.entries@);
            assert forall|k: Seq<char>| #[trigger] self@.contains_key(k) implies other@.contains_key(k)
                && other@[k] == self@[k] by {
                let j = choose|j: int| 0 <= j < self.entries@.len() && (#[trigger] self.entries@[j]).0@ == k;
            }
        }
        true
    }
}

proof fn lemma_unique_len(entries: Seq<(String, String)>)
    requires
        keys_unique(entries),
    ensures
        map_of(entries).dom().len() == entries.len(),
        map_of(entries).dom().finite(),
    decreases entries.len(),
{
    if entries.len() > 0 {
        let prefix = entries.drop_last();
        assert(keys_unique(prefix)) by {
            assert forall|i: int, j: int| 0 <= i < j < prefix.len() implies (#[trigger] prefix[i]).0@
                != (#[trigger] prefix[j]).0@ by {
                assert(prefix[i] == entries[i]);
                assert(prefix[j] == entries[j]);
            }
        }
        lemma_unique_len(prefix);
        lemma_map_of(prefix);
        assert(!map_of(prefix).contains_key(entries.last().0@)) by {
            if map_of(prefix).contains_key(entries.last().0@) {
                let i = choose|i: int| 0 <= i < prefix.len() && (#[trigger] prefix[i]).0@ == entries.last().0@;
                assert(prefix[i] == entries[i]);
            }
        }
    }
}

/// The map an index entry list stands for: each key to the index of its entry.
pub open spec fn index_map_of(entries: Seq<(String, usize)>) -> Map<Seq<char>, usize>
    decreases entries.len(),
{
    if entries.len() == 0 {
        Map::empty()
    } else {
        index_map_of(entries.drop_last()).insert(entries.last().0@, entries.last().1)
    }
}

pub open spec fn index_keys_unique(entries: Seq<(String, usize)>) -> bool {
    forall|i: int, j: int|
        0 <= i < j < entries.len() ==> (#[trigger] entries[i]).0@ != (#[trigger] entries[j]).0@
}

pub proof fn lemma_index_map_of(entries: Seq<(String, usize)>)
    requires
        index_keys_unique(entries),
    ensures
        forall|k: Seq<char>|
            index_map_of(entries).contains_key(k) <==> exists|i: int|
                0 <= i < entries.len() && (#[trigger] entries[i]).0@ == k,
        forall|i: int|
            0 <= i < entries.len() ==> index_map_of(entries).contains_key((#[trigger] entries[i]).0@)
                && index_map_of(entries)[entries[i].0@] == entries[i].1,
        index_map_of(entries).dom().finite(),
    decreases entries.len(),
{
    if entries.len() > 0 {
        let prefix = entries.drop_last();
        assert(index_keys_unique(prefix)) by {
            assert forall|i: int, j: int| 0 <= i < j < prefix.len() implies (#[trigger] prefix[i]).0@
                != (#[trigger] prefix[j]).0@ by {
                assert(prefix[i] == entries[i]);
                assert(prefix[j] == entries[j]);
            }
        }
        lemma_index_map_of(prefix);
        assert forall|k: Seq<char>|
            index_map_of(entries).contains_key(k) implies exists|i: int|
                0 <= i < entries.len() && (#[trigger] entries[i]).0@ == k by {
            if k == entries.last().0@ {
                assert(entries[entries.len() - 1].0@ == k);
            } else {
                let i = choose|i: int| 0 <= i < prefix.len() && (#[trigger] prefix[i]).0@ == k;
                assert(entries[i] == prefix[i]);
            }
        }
        assert forall|i: int|
            0 <= i < entries.len() implies index_map_of(entries).contains_key(
                (#[trigger] entries[i]).0@,
            ) && index_map_of(entries)[entries[i].0@] == entries[i].1 by {
            if i < entries.len() - 1 {
                assert(prefix[i] == entries[i]);
                assert(entries[i].0@ != entries[entries.len() - 1].0@);
            }
        }
        assert forall|k: Seq<char>|
            (exists|i: int| 0 <= i < entries.len() && (#[trigger] entries[i]).0@ == k) implies index_map_of(
                entries,
            ).contains_key(k) by {
            let i = choose|i: int| 0 <= i < entries.len() && (#[trigger] entries[i]).0@ == k;
            if i < entries.len() - 1 {
                assert(prefix[i] == entries[i]);
            }
        }
    }
}

/// A finite map from names to indices that remembers insertion order.
#[derive(Debug)]
pub struct IndexMap {
    entries: Vec<(String, usize)>,
}

impl View for IndexMap {
    type V = Map<Seq<char>, usize>;

    closed spec fn view(&self) -> Map<Seq<char>, usize> {
        index_map_of(self.entries@)
    }
}

impl IndexMap {
    pub closed spec fn wf(&self) -> bool {
        index_keys_unique(self.entries@)
    }

    /// The entries in insertion order.
    pub closed spec fn entries_seq(&self) -> Seq<(String, usize)> {
        self.entries@
    }

    pub proof fn lemma_view(&self)
        requires
            self.wf(),
        ensures
            forall|k: Seq<char>|
                self@.contains_key(k) <==> exists|i: int|
                    0 <= i < self.entries_seq().len() && (#[trigger] self.entries_seq()[i]).0@ == k,
            forall|i: int|
                0 <= i < self.entries_seq().len() ==> self@.contains_key(
                    (#[trigger] self.entries_seq()[i]).0@,
                ) && self@[self.entries_seq()[i].0@] == self.entries_seq()[i].1,
            self@.dom().finite(),
            self.entries_seq().len() == self@.dom().len(),
    {
        lemma_index_map_of(self.entries@);
        lemma_index_unique_len(self.entries@);
        assert forall|k: Seq<char>|
            self@.contains_key(k) <==> exists|i: int|
                0 <= i < self.entries_seq().len() && (#[trigger] self.entries_seq()[i]).0@ == k by {
            if self@.contains_key(k) {
                let i = choose|i: int| 0 <= i < self.entries@.len() && (#[trigger] self.entries@[i]).0@ == k;
                assert(self.entries_seq()[i] == self.entries@[i]);
            }
        }
    }

    pub fn new() -> (m: IndexMap)
        ensures
            m.wf(),
            m@ == Map::<Seq<char>, usize>::empty(),
    {
        IndexMap { entries: Vec::new() }
    }

    pub fn len(&self) -> (n: usize)
        ensures
            n == self.entries_seq().len(),
    {
        self.entries.len()
    }

    /// The `i`-th entry in insertion order.
    pub fn entry(&self, i: usize) -> (e: (&String, usize))
        requires
            i < self.entries_seq().len(),
        ensures
            *e.0 == self.entries_seq()[i as int].0,
            e.1 == self.entries_seq()[i as int].1,
    {
        (&self.entries[i].0, self.entries[i].1)
    }

    fn find(&self, key: &String) -> (r: Option<usize>)
        requires
            self.wf(),
        ensures
            match r {
                Some(i) => i < self.entries@.len() && self.entries@[i as int].0@ == key@,
                None => forall|i: int| 0 <= i < self.entries@.len() ==> (#[trigger] self.entries@[i]).0@ != key@,
            },
    {
        let mut i: usize = 0;
        while i < self.entries.len()
            invariant
                i <= self.entries@.len(),
                forall|j: int| 0 <= j < i ==> (#[trigger] self.entries@[j]).0@ != key@,
            decreases self.entries@.len() - i,
        {
            if str_eq(&self.entries[i].0, key) {
                return Some(i);
            }
            i = i + 1;
        }
        None
    }

    pub fn get(&self, key: &String) -> (r: Option<usize>)
        requires
            self.wf(),
        ensures
            match r {
                Some(v) => self@.contains_key(key@) && self@[key@] == v,
                None => !self@.contains_key(key@),
            },
    {
        proof {
            lemma_index_map_of(self.entries@);
        }
        match self.find(key) {
            Some(i) => Some(self.entries[i].1),
            None => None,
        }
    }

    pub fn contains_key(&self, key: &String) -> (b: bool)
        requires
            self.wf(),
        ensures
            b == self@.contains_key(key@),
    {
        proof {
            lemma_index_map_of(self.entries@);
        }
        self.find(key).is_some()
    }

    /// Binds `key` to `value`, replacing an earlier binding of `key`.
    pub fn insert(&mut self, key: String, value: usize)
        requires
            old(self).wf(),
        ensures
            final(self).wf(),
            final(self)@ == old(self)@.insert(key@, value),
    {
        proof {
            lemma_index_map_of(self.entries@);
        }
        match self.find(&key) {
            Some(i) => {
                let ghost before = self.entries@;
                self.entries.set(i, (key, value));
                proof {
                    let after = self.entries@;
                    assert(index_keys_unique(after)) by {
                        assert forall|a: int, b: int| 0 <= a < b < after.len() implies (#[trigger] after[a]).0@
                            != (#[trigger] after[b]).0@ by {
                            if a != i && b != i {
                                assert(after[a] == before[a] && after[b] == before[b]);
                            } else if a == i {
                                assert(after[b] == before[b]);
                            } else {
                                assert(after[a] == before[a]);
                            }
                        }
                    }
                    lemma_index_map_of(after);
                    lemma_index_map_of(before);
                    assert(index_map_of(after) =~= index_map_of(before).insert(key@, value)) by {
                        assert forall|k: Seq<char>| #[trigger] index_map_of(after).contains_key(k) <==> index_map_of(
                            before,
                        ).insert(key@, value).contains_key(k) by {
                            if index_map_of(after).contains_key(k) {
                                let j = choose|j: int| 0 <= j < after.len() && (#[trigger] after[j]).0@ == k;
                                if j != i {
                                    assert(after[j] == before[j]);
                                }
                            }
                            if index_map_of(before).contains_key(k) && k != key@ {
                                let j = choose|j: int| 0 <= j < before.len() && (#[trigger] before[j]).0@ == k;
                                assert(j != i);
                                assert(after[j] == before[j]);
                            }
                            assert(after[i as int].0@ == key@);
                        }
                        assert forall|k: Seq<char>| #[trigger] index_map_of(after).contains_key(k) implies index_map_of(
                            after,
                        )[k] == index_map_of(before).insert(key@, value)[k] by {
                            let j = choose|j: int| 0 <= j < after.len() && (#[trigger] after[j]).0@ == k;
                            if j != i {
                                assert(after[j] == before[j]);
                            }
                        }
                    }
                }
            },
            None => {
                let ghost before = self.entries@;
                self.entries.push((key, value));
                proof {
                    let after = self.entries@;
                    assert(after.drop_last() =~= before);
                    assert(index_keys_unique(after)) by {
                        assert forall|a: int, b: int| 0 <= a < b < after.len() implies (#[trigger] after[a]).0@
                            != (#[trigger] after[b]).0@ by {
                            if b < after.len() - 1 {
                                assert(after[a] == before[a] && after[b] == before[b]);
                            } else {
                                assert(after[a] == before[a]);
                            }
                        }
                    }
                }
            },
        }
    }

    /// Binds `key` to `value` unless `key` is bound already.
    pub fn insert_if_absent(&mut self, key: String, value: usize)
        requires
            old(self).wf(),
        ensures
            final(self).wf(),
            final(self)@ == (if old(self)@.contains_key(key@) {
                old(self)@
            } else {
                old(self)@.insert(key@, value)
            }),
    {
        if !self.contains_key(&key) {
            self.insert(key, value);
        }
    }

    pub fn clone_map(&self) -> (m: IndexMap)
        requires
            self.wf(),
        ensures
            m.wf(),
            m@ == self@,
            m.entries_seq() == self.entries_seq(),
    {
        let mut entries: Vec<(String, usize)> = Vec::new();
        let mut i: usize = 0;
        while i < self.entries.len()
            invariant
                i <= self.entries@.len(),
                entries@ == self.entries@.subrange(0, i as int),
            decreases self.entries@.len() - i,
        {
            let e = (self.entries[i].0.clone(), self.entries[i].1);
            entries.push(e);
            proof {
                assert(entries@ =~= self.entries@.subrange(0, i as int + 1));
            }
            i = i + 1;
        }
        proof {
            assert(entries@ =~= self.entries@);
        }
        IndexMap { entries }
    }

    /// Adds every binding of `other` whose name is not bound yet.
    pub fn extend_if_absent(&mut self, other: &IndexMap)
        requires
            old(self).wf(),
            other.wf(),
        ensures
            final(self).wf(),
            final(self)@ == other@.union_prefer_right(old(self)@),
    {
        proof {
            lemma_index_map_of(other.entries@);
        }
        let ghost start = self@;
        let mut i: usize = 0;
        while i < other.entries.len()
            invariant
                self.wf(),
                other.wf(),
                i <= other.entries@.len(),
                self@ == index_map_of(other.entries@.subrange(0, i as int)).union_prefer_right(start),
            decreases other.entries@.len() - i,
        {
            let ghost before = self@;
            let k = other.entries[i].0.clone();
            let v = other.entries[i].1;
            proof {
                let prefix0 = other.entries@.subrange(0, i as int);
                assert(index_keys_unique(prefix0)) by {
                    assert forall|a: int, b: int| 0 <= a < b < prefix0.len() implies (#[trigger] prefix0[a]).0@
                        != (#[trigger] prefix0[b]).0@ by {
                        assert(prefix0[a] == other.entries@[a]);
                        assert(prefix0[b] == other.entries@[b]);
                    }
                }
                lemma_index_map_of(prefix0);
                if index_map_of(prefix0).contains_key(k@) {
                    let j = choose|j: int| 0 <= j < prefix0.len() && (#[trigger] prefix0[j]).0@ == k@;
                    assert(prefix0[j] == other.entries@[j]);
                    assert(false);
                }
            }
            self.insert_if_absent(k, v);
            proof {
                let prefix = other.entries@.subrange(0, i as int + 1);
                assert(prefix.drop_last() =~= other.entries@.subrange(0, i as int));
                assert(self@ =~= index_map_of(prefix).union_prefer_right(start));
            }
            i = i + 1;
        }
        proof {
            assert(other.entries@.subrange(0, other.entries@.len() as int) =~= other.entries@);
        }
    }

    /// Adds every binding of `other`, replacing earlier bindings of the same names.
    pub fn extend_overwrite(&mut self, other: &IndexMap)
        requires
            old(self).wf(),
            other.wf(),
        ensures
            final(self).wf(),
            final(self)@ == old(self)@.union_prefer_right(other@),
    {
        let ghost start = self@;
        let mut i: usize = 0;
        while i < other.entries.len()
            invariant
                self.wf(),
                other.wf(),
                i <= other.entries@.len(),
                self@ == start.union_prefer_right(index_map_of(other.entries@.subrange(0, i as int))),
            decreases other.entries@.len() - i,
        {
            let k = other.entries[i].0.clone();
            let v = other.entries[i].1;
            self.insert(k, v);
            proof {
                let prefix = other.entries@.subrange(0, i as int + 1);
                assert(prefix.drop_last() =~= other.entries@.subrange(0, i as int));
                assert(self@ =~= start.union_prefer_right(index_map_of(prefix)));
            }
            i = i + 1;
        }
        proof {
            assert(other.entries@.subrange(0, other.entries@.len() as int) =~= other.entries@);
        }
    }

    /// Whether the two maps bind the same names to the same names.
    pub fn same_as(&self, other: &IndexMap) -> (b: bool)
        requires
            self.wf(),
            other.wf(),
        ensures
            b == (self@ == other@),
    {
        proof {
            lemma_index_map_of(self.entries@);
            lemma_index_map_of(other.entries@);
        }
        if !self.included_in(other) {
            return false;
        }
        if !other.included_in(self) {
            return false;
        }
        proof {
            assert(self@ =~= other@);
        }
        true
    }

    /// Every binding of `self` is a binding of `other`.
    fn included_in(&self, other: &IndexMap) -> (b: bool)
        requires
            self.wf(),
            other.wf(),
        ensures
            b == (forall|k: Seq<char>| #[trigger] self@.contains_key(k) ==> other@.contains_key(k)
                && other@[k] == self@[k]),
    {
        proof {
            lemma_index_map_of(self.entries@);
            lemma_index_map_of(other.entries@);
        }
        let mut i: usize = 0;
        while i < self.entries.len()
            invariant
                self.wf(),
                other.wf(),
                i <= self.entries@.len(),
                forall|j: int|
                    0 <= j < i ==> other@.contains_key((#[trigger] self.entries@[j]).0@)
                        && other@[self.entries@[j].0@] == self.entries@[j].1,
            decreases self.entries@.len() - i,
        {
            proof {
                lemma_index_map_of(self.entries@);
            }
            match other.get(&self.entries[i].0) {
                Some(v) => {
                    if v != self.entries[i].1 {
                        proof {
                            let k = self.entries@[i as int].0@;
                            assert(self@.contains_key(k) && self@[k] == self.entries@[i as int].1);
                        }
                        return false;
                    }
                },
                None => {
                    proof {
                        let k = self.entries@[i as int].0@;
                        assert(self@.contains_key(k));
                    }
                    return false;
                },
            }
            i = i + 1;
        }
        proof {
            lemma_index_map_of(self.entries@);
            assert forall|k: Seq<char>| #[trigger] self@.contains_key(k) implies other@.contains_key(k)
                && other@[k] == self@[k] by {
                let j = choose|j: int| 0 <= j < self.entries@.len() && (#[trigger] self.entries@[j]).0@ == k;
            }
        }
        true
    }
}

proof fn lemma_index_unique_len(entries: Seq<(String, usize)>)
    requires
        index_keys_unique(entries),
    ensures
        index_map_of(entries).dom().len() == entries.len(),
        index_map_of(entries).dom().finite(),
    decreases entries.len(),
{
    if entries.len() > 0 {
        let prefix = entries.drop_last();
        assert(index_keys_unique(prefix)) by {
            assert forall|i: int, j: int| 0 <= i < j < prefix.len() implies (#[trigger] prefix[i]).0@
                != (#[trigger] prefix[j]).0@ by {
                assert(prefix[i] == entries[i]);
                assert(prefix[j] == entries[j]);
            }
        }
        lemma_index_unique_len(prefix);
        lemma_index_map_of(prefix);
        assert(!index_map_of(prefix).contains_key(entries.last().0@)) by {
            if index_map_of(prefix).contains_key(entries.last().0@) {
                let i = choose|i: int| 0 <= i < prefix.len() && (#[trigger] prefix[i]).0@ == entries.last().0@;
                assert(prefix[i] == entries[i]);
            }
        }
    }
}

} // verus!

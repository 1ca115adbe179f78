//! A map from names to values, kept as a list of entries with distinct names.
use vstd::prelude::*;
use vstd::string::*;

verus! {

/// Values stored under string names; each name occurs at most once.
pub struct StringMap<V: View> {
    entries: Vec<(String, V)>,
}

impl<V: View> StringMap<V> {
    #[verifier::type_invariant]
    closed spec fn names_distinct(self) -> bool {
        forall|i: int, j: int|
            0 <= i < j < self.entries.len() ==> (#[trigger] self.entries[i]).0@
                != (#[trigger] self.entries[j]).0@
    }

    /// The index of the entry named `key`.
    closed spec fn index_of(self, key: Seq<char>) -> int {
        choose|i: int| 0 <= i < self.entries.len() && self.entries[i].0@ == key
    }

    /// The stored values, by name.
    pub closed spec fn map(self) -> Map<Seq<char>, V::V> {
        Map::new(
            |k: Seq<char>| exists|i: int| 0 <= i < self.entries.len() && self.entries[i].0@ == k,
            |k: Seq<char>| self.entries[self.index_of(k)].1@,
        )
    }

    proof fn lemma_entry(self, i: int)
        requires
            self.names_distinct(),
            0 <= i < self.entries.len(),
        ensures
            self.map().contains_key(self.entries[i].0@),
            self.map()[self.entries[i].0@] == self.entries[i].1@,
            self.index_of(self.entries[i].0@) == i,
    {
        let k = self.entries[i].0@;
        assert(exists|j: int| 0 <= j < self.entries.len() && self.entries[j].0@ == k);
        let j = self.index_of(k);
        if j != i {
            if j < i {
                assert(self.entries[j].0@ != self.entries[i].0@);
            } else {
                assert(self.entries[i].0@ != self.entries[j].0@);
            }
        }
    }

    /// An empty map.
    pub fn new() -> (r: Self)
        ensures
            r.map() == Map::<Seq<char>, V::V>::empty(),
    {
        let r = StringMap { entries: Vec::new() };
        assert(r.map() =~= Map::<Seq<char>, V::V>::empty());
        r
    }

    /// Where the entry named `key` stands.
    fn find(&self, key: &str) -> (r: Option<usize>)
        ensures
            r matches Some(i) ==> i < self.entries.len() && self.entries[i as int].0@ == key@,
            r is None ==> !self.map().contains_key(key@),
    {
        let mut i: usize = 0;
        while i < self.entries.len()
            invariant
                0 <= i <= self.entries.len(),
                forall|j: int| 0 <= j < i ==> (#[trigger] self.entries[j]).0@ != key@,
            decreases self.entries.len() - i,
        {
            if self.entries[i].0 == String::from_str(key) {
                return Some(i);
            }
            i = i + 1;
        }
        None
    }

    /// Whether a value is stored under `key`.
    pub fn contains_key(&self, key: &str) -> (r: bool)
        ensures
            r == self.map().contains_key(key@),
    {
        proof {
            use_type_invariant(self);
        }
        match self.find(key) {
            Some(i) => {
                proof {
                    self.lemma_entry(i as int);
                }
                true
            },
            None => false,
        }
    }

    /// The value stored under `key`.
    pub fn get(&self, key: &str) -> (r: Option<&V>)
        ensures
            r matches Some(v) ==> self.map().contains_key(key@) && v@ == self.map()[key@],
            r is None ==> !self.map().contains_key(key@),
    {
        proof {
            use_type_invariant(self);
        }
        match self.find(key) {
            Some(i) => {
                proof {
                    self.lemma_entry(i as int);
                }
                Some(&self.entries[i].1)
            },
            None => None,
        }
    }

    /// Stores `value` under `key`, replacing what was stored there.
    pub fn insert(&mut self, key: String, value: V)
        ensures
            final(self).map() == old(self).map().insert(key@, value@),
    {
        proof {
            use_type_invariant(&*self);
        }
        let ghost old_self = *self;
        let ghost k = key@;
        let ghost v = value@;
        match self.find(key.as_str()) {
            Some(i) => {
                let ghost old_entries = self.entries@;
                let mut entries = Vec::new();
                std::mem::swap(&mut entries, &mut self.entries);
                entries.set(i, (key, value));
                let ghost new_entries = entries@;
                assert(new_entries == old_entries.update(i as int, new_entries[i as int]));
                assert forall|a: int, b: int| 0 <= a < b < new_entries.len() implies (
                #[trigger] new_entries[a]).0@ != (#[trigger] new_entries[b]).0@ by {
                    if a != i && b != i {
                        assert(old_entries[a] == new_entries[a]);
                        assert(old_entries[b] == new_entries[b]);
                    } else if a == i {
                        assert(old_entries[b] == new_entries[b]);
                        assert(old_entries[i as int].0@ != old_entries[b].0@);
                    } else {
                        assert(old_entries[a] == new_entries[a]);
                        assert(old_entries[a].0@ != old_entries[i as int].0@);
                    }
                }
                self.entries = entries;
                proof {
                    let target = old_self.map().insert(k, v);
                    assert forall|key2: Seq<char>| #[trigger] self.map().contains_key(key2)
                        <==> target.contains_key(key2) by {
                        if self.map().contains_key(key2) {
                            let j = choose|j: int|
                                0 <= j < self.entries.len() && self.entries[j].0@ == key2;
                            if j != i {
                                old_self.lemma_entry(j);
                            }
                        }
                        if target.contains_key(key2) && key2 != k {
                            let j = choose|j: int|
                                0 <= j < old_self.entries.len() && old_self.entries[j].0@ == key2;
                            assert(self.entries[j] == old_self.entries[j]);
                            self.lemma_entry(j);
                        }
                        if key2 == k {
                            self.lemma_entry(i as int);
                        }
                    }
                    assert forall|key2: Seq<char>| #[trigger] self.map().contains_key(key2)
                        implies self.map()[key2] == target[key2] by {
                        let j = choose|j: int|
                            0 <= j < self.entries.len() && self.entries[j].0@ == key2;
                        self.lemma_entry(j);
                        if j != i {
                            old_self.lemma_entry(j);
                        }
                    }
                    assert(self.map() =~= target);
                }
            },
            None => {
                let mut entries = Vec::new();
                std::mem::swap(&mut entries, &mut self.entries);
                entries.push((key, value));
                assert forall|a: int, b: int| 0 <= a < b < entries@.len() implies (
                #[trigger] entries@[a]).0@ != (#[trigger] entries@[b]).0@ by {
                    if b < old_self.entries.len() {
                        assert(entries@[a] == old_self.entries[a]);
                        assert(entries@[b] == old_self.entries[b]);
                    } else {
                        assert(entries@[a] == old_self.entries[a]);
                    }
                }
                self.entries = entries;
                proof {
                    let n = old_self.entries.len() as int;
                    let target = old_self.map().insert(k, v);
                    assert forall|key2: Seq<char>| #[trigger] self.map().contains_key(key2)
                        <==> target.contains_key(key2) by {
                        if self.map().contains_key(key2) && key2 != k {
                            let j = choose|j: int|
                                0 <= j < self.entries.len() && self.entries[j].0@ == key2;
                            assert(j < n);
                            assert(old_self.entries[j] == self.entries[j]);
                        }
                        if target.contains_key(key2) && key2 != k {
                            let j = choose|j: int|
                                0 <= j < old_self.entries.len() && old_self.entries[j].0@ == key2;
                            assert(self.entries[j] == old_self.entries[j]);
                        }
                        if key2 == k {
                            assert(self.entries[n].0@ == k);
                        }
                    }
                    assert forall|key2: Seq<char>| #[trigger] self.map().contains_key(key2)
                        implies self.map()[key2] == target[key2] by {
                        let j = choose|j: int|
                            0 <= j < self.entries.len() && self.entries[j].0@ == key2;
                        self.lemma_entry(j);
                        if j < n {
                            assert(old_self.entries[j] == self.entries[j]);
                            old_self.lemma_entry(j);
                        }
                    }
                    assert(self.map() =~= target);
                }
            },
        }
    }

    /// Takes out the value stored under `key`, if there is one.
    pub fn remove(&mut self, key: &str) -> (r: Option<V>)
        ensures
            final(self).map() == old(self).map().remove(key@),
            r matches Some(v) ==> old(self).map().contains_key(key@) && v@ == old(self).map()[key@],
            r is None ==> !old(self).map().contains_key(key@),
    {
        proof {
            use_type_invariant(&*self);
        }
        let ghost old_self = *self;
        let ghost k = key@;
        match self.find(key) {
            Some(i) => {
                proof {
                    old_self.lemma_entry(i as int);
                }
                let ghost old_entries = self.entries@;
                let mut entries = Vec::new();
                std::mem::swap(&mut entries, &mut self.entries);
                let removed = entries.remove(i);
                let ghost new_entries = entries@;
                assert(new_entries == old_entries.remove(i as int));
                assert forall|a: int, b: int| 0 <= a < b < new_entries.len() implies (
                #[trigger] new_entries[a]).0@ != (#[trigger] new_entries[b]).0@ by {
                    let oa = if a < i { a } else { a + 1 };
                    let ob = if b < i { b } else { b + 1 };
                    assert(new_entries[a] == old_entries[oa]);
                    assert(new_entries[b] == old_entries[ob]);
                }
                self.entries = entries;
                proof {
                    let target = old_self.map().remove(k);
                    assert forall|key2: Seq<char>| #[trigger] self.map().contains_key(key2)
                        <==> target.contains_key(key2) by {
                        if self.map().contains_key(key2) {
                            let j = choose|j: int|
                                0 <= j < self.entries.len() && self.entries[j].0@ == key2;
                            let oj = if j < i { j } else { j + 1 };
                            assert(self.entries[j] == old_self.entries[oj]);
                            assert(old_self.entries[oj].0@ != old_self.entries[i as int].0@);
                        }
                        if target.contains_key(key2) {
                            let oj = choose|j: int|
                                0 <= j < old_self.entries.len() && old_self.entries[j].0@ == key2;
                            assert(oj != i);
                            let j = if oj < i { oj } else { oj - 1 };
                            assert(self.entries[j] == old_self.entries[oj]);
                        }
                    }
                    assert forall|key2: Seq<char>| #[trigger] self.map().contains_key(key2)
                        implies self.map()[key2] == target[key2] by {
                        let j = choose|j: int|
                            0 <= j < self.entries.len() && self.entries[j].0@ == key2;
                        self.lemma_entry(j);
                        let oj = if j < i { j } else { j + 1 };
                        assert(self.entries[j] == old_self.entries[oj]);
                        old_self.lemma_entry(oj);
                    }
                    assert(self.map() =~= target);
                }
                Some(removed.1)
            },
            None => {
                assert(old_self.map().remove(k) =~= old_self.map());
                None
            },
        }
    }

    /// Removes every entry.
    pub fn clear(&mut self)
        ensures
            final(self).map() == Map::<Seq<char>, V::V>::empty(),
    {
        self.entries = Vec::new();
        assert(self.map() =~= Map::<Seq<char>, V::V>::empty());
    }
}

impl StringMap<Vec<u64>> {
    /// Whether some stored list holds `x`.
    pub fn holds_member(&self, x: u64) -> (r: bool)
        ensures
            r == exists|k: Seq<char>| #[trigger] self.map().contains_key(k) && self.map()[k].contains(x),
    {
        proof {
            use_type_invariant(self);
        }
        let mut i: usize = 0;
        while i < self.entries.len()
            invariant
                self.names_distinct(),
                0 <= i <= self.entries.len(),
                forall|j: int| 0 <= j < i ==> !(#[trigger] self.entries[j]).1@.contains(x),
            decreases self.entries.len() - i,
        {
            let list = &self.entries[i].1;
            let mut k: usize = 0;
            while k < list.len()
                invariant
                    self.names_distinct(),
                    0 <= i < self.entries.len(),
                    list@ == self.entries[i as int].1@,
                    0 <= k <= list.len(),
                    forall|m: int| 0 <= m < k ==> list@[m] != x,
                decreases list.len() - k,
            {
                if list[k] == x {
                    proof {
                        self.lemma_entry(i as int);
                        assert(list@[k as int] == x);
                        assert(self.map()[self.entries[i as int].0@].contains(x));
                    }
                    return true;
                }
                k = k + 1;
            }
            i = i + 1;
        }
        assert forall|key: Seq<char>| #[trigger] self.map().contains_key(key) implies !self.map()[key].contains(x) by {
            let j = choose|j: int| 0 <= j < self.entries.len() && self.entries[j].0@ == key;
            self.lemma_entry(j);
        }
        false
    }
}

} // verus!

//! A map keyed by text that keeps its keys in the order in which they came.

use crate::text::same_text;
use crate::text::Text;
use vstd::prelude::*;

verus! {

/// Keys with their values, in the order of first insertion. A well-formed
/// map holds no key twice.
#[derive(Debug)]
pub struct NameMap<V> {
    pub entries: Vec<(String, V)>,
}

impl<V> NameMap<V> {
    /// The keys, in order.
    pub open spec fn keys(&self) -> Seq<Text> {
        Seq::new(self.entries@.len(), |i: int| self.entries@[i].0@)
    }

    /// No key stands twice.
    pub open spec fn wf(&self) -> bool {
        self.keys().no_duplicates()
    }

    /// Whether `key` is in the map.
    pub open spec fn has(&self, key: Text) -> bool {
        self.keys().contains(key)
    }

    /// The first place at which `key` stands.
    pub open spec fn place(&self, key: Text) -> int {
        choose|i: int|
            0 <= i < self.keys().len() && self.keys()[i] == key && forall|j: int|
                0 <= j < i ==> self.keys()[j] != key
    }

    /// The value under `key`.
    pub open spec fn value(&self, key: Text) -> V {
        self.entries@[self.place(key)].1
    }

    /// The map as a mathematical map, without the order.
    pub open spec fn as_map(&self) -> Map<Text, V> {
        Map::new(|key: Text| self.has(key), |key: Text| self.value(key))
    }

    /// A key stands at the first place that holds it.
    pub proof fn lemma_place(&self, at: int)
        requires
            0 <= at < self.entries@.len(),
            forall|j: int| 0 <= j < at ==> self.keys()[j] != self.keys()[at],
        ensures
            self.has(self.keys()[at]),
            self.place(self.keys()[at]) == at,
            self.value(self.keys()[at]) == self.entries@[at].1,
    {
        let key = self.keys()[at];
        let found = self.place(key);
        assert(0 <= found < self.keys().len() && self.keys()[found] == key && forall|j: int|
            0 <= j < found ==> self.keys()[j] != key);
    }

    /// The empty map.
    pub fn new() -> (map: Self)
        ensures
            map.entries@.len() == 0,
            map.wf(),
            map.as_map() == Map::<Text, V>::empty(),
    {
        let map = NameMap { entries: Vec::new() };
        assert(map.as_map() =~= Map::<Text, V>::empty());
        map
    }

    /// The number of keys.
    pub fn len(&self) -> (count: usize)
        ensures
            count == self.entries@.len(),
    {
        self.entries.len()
    }

    /// The first place at which `key` stands.
    pub fn find(&self, key: &String) -> (found: Option<usize>)
        ensures
            match found {
                Some(i) => {
                    &&& i < self.entries@.len()
                    &&& self.entries@[i as int].0@ == key@
                    &&& forall|j: int| 0 <= j < i ==> self.entries@[j].0@ != key@
                    &&& self.has(key@)
                },
                None => !self.has(key@),
            },
    {
        let mut i: usize = 0;
        while i < self.entries.len()
            invariant
                i <= self.entries.len(),
                forall|j: int| 0 <= j < i ==> self.entries@[j].0@ != key@,
            decreases self.entries.len() - i,
        {
            if same_text(&self.entries[i].0, key) {
                assert(self.keys()[i as int] == key@);
                return Some(i);
            }
            i += 1;
        }
        None
    }

    /// Whether `key` is in the map.
    pub fn contains_key(&self, key: &String) -> (found: bool)
        ensures
            found == self.has(key@),
    {
        self.find(key).is_some()
    }

    /// The value under `key`, if there is one.
    pub fn get(&self, key: &String) -> (found: Option<&V>)
        ensures
            match found {
                Some(value) => self.has(key@) && *value == self.value(key@),
                None => !self.has(key@),
            },
    {
        match self.find(key) {
            Some(i) => {
                proof {
                    self.lemma_place(i as int);
                }
                Some(&self.entries[i].1)
            },
            None => None,
        }
    }

    /// Puts `value` under `key`: in the place of the old value where the key
    /// was there, at the end where it was not.
    pub fn insert(&mut self, key: String, value: V)
        requires
            old(self).wf(),
        ensures
            final(self).wf(),
            final(self).as_map() == old(self).as_map().insert(key@, value),
            old(self).has(key@) ==> final(self).keys() == old(self).keys(),
            !old(self).has(key@) ==> final(self).keys() == old(self).keys().push(key@),
    {
        let ghost before = *self;
        let ghost text = key@;
        match self.find(&key) {
            Some(i) => {
                self.entries.set(i, (key, value));
                proof {
                    assert(self.keys() =~= before.keys());
                    assert forall|k: Text| self.has(k) implies #[trigger] self.value(k) == (if k
                        == text {
                        value
                    } else {
                        before.value(k)
                    }) by {
                        let at = choose|at: int| 0 <= at < self.keys().len() && self.keys()[at] == k;
                        assert(before.keys()[at] == k);
                        assert(before.keys()[i as int] == text);
                        self.lemma_place(at);
                        before.lemma_place(at);
                        if k == text {
                            assert(at == i);
                        } else {
                            assert(at != i);
                            assert(self.entries@[at] == before.entries@[at]);
                        }
                    }
                    assert(before.has(text));
                    assert(self.as_map() =~= before.as_map().insert(text, value));
                }
            },
            None => {
                self.entries.push((key, value));
                proof {
                    assert(self.keys() =~= before.keys().push(text));
                    assert forall|k: Text| self.has(k) <==> (k == text || before.has(k)) by {
                        if before.has(k) {
                            let at = choose|at: int|
                                0 <= at < before.keys().len() && before.keys()[at] == k;
                            assert(self.keys()[at] == k);
                        }
                        if k == text {
                            assert(self.keys()[before.keys().len() as int] == k);
                        }
                    }
                    assert forall|k: Text| self.has(k) implies #[trigger] self.value(k) == (if k
                        == text {
                        value
                    } else {
                        before.value(k)
                    }) by {
                        let at = choose|at: int| 0 <= at < self.keys().len() && self.keys()[at] == k;
                        self.lemma_place(at);
                        if at < before.keys().len() {
                            assert(before.keys()[at] == k);
                            before.lemma_place(at);
                        }
                    }
                    assert(self.as_map() =~= before.as_map().insert(text, value));
                }
            },
        }
    }
}

/// Below a place that holds `key` lies the first place that holds it.
proof fn lemma_first_below(keys: Seq<Text>, key: Text, at: int)
    requires
        0 <= at < keys.len(),
        keys[at] == key,
    ensures
        exists|i: int|
            0 <= i <= at && keys[i] == key && forall|j: int| 0 <= j < i ==> keys[j] != key,
    decreases at,
{
    if exists|j: int| 0 <= j < at && keys[j] == key {
        let j = choose|j: int| 0 <= j < at && keys[j] == key;
        lemma_first_below(keys, key, j);
        let i = choose|i: int|
            0 <= i <= j && keys[i] == key && forall|m: int| 0 <= m < i ==> keys[m] != key;
        assert(0 <= i <= at && keys[i] == key && forall|m: int| 0 <= m < i ==> keys[m] != key);
    } else {
        assert(0 <= at <= at && keys[at] == key && forall|m: int| 0 <= m < at ==> keys[m] != key);
    }
}

impl<V> NameMap<V> {
    /// A key of the map has a first place.
    pub proof fn lemma_first_place(&self, key: Text)
        requires
            self.has(key),
        ensures
            0 <= self.place(key) < self.entries@.len(),
            self.keys()[self.place(key)] == key,
            forall|j: int| 0 <= j < self.place(key) ==> self.keys()[j] != key,
    {
        let at = choose|at: int| 0 <= at < self.keys().len() && self.keys()[at] == key;
        lemma_first_below(self.keys(), key, at);
        let i = choose|i: int|
            0 <= i <= at && self.keys()[i] == key && forall|j: int|
                0 <= j < i ==> self.keys()[j] != key;
        assert(0 <= i < self.keys().len() && self.keys()[i] == key && forall|j: int|
            0 <= j < i ==> self.keys()[j] != key);
    }

    /// Replacing the value at the first place of a key is inserting under
    /// that key.
    pub proof fn lemma_replaced(before: Self, after: Self, at: int, value: V)
        requires
            0 <= at < before.entries@.len(),
            forall|j: int| 0 <= j < at ==> before.keys()[j] != before.keys()[at],
            after.entries@ == before.entries@.update(at, (before.entries@[at].0, value)),
        ensures
            after.keys() == before.keys(),
            after.as_map() == before.as_map().insert(before.keys()[at], value),
    {
        let key = before.keys()[at];
        assert(after.keys() =~= before.keys());
        before.lemma_place(at);
        after.lemma_place(at);
        assert forall|k: Text| after.has(k) implies #[trigger] after.value(k) == (if k == key {
            value
        } else {
            before.value(k)
        }) by {
            after.lemma_first_place(k);
            let found = after.place(k);
            after.lemma_place(found);
            before.lemma_place(found);
        }
        assert(after.as_map() =~= before.as_map().insert(key, value));
    }

    /// Takes `key` and its value out of the map.
    pub fn remove(&mut self, key: &String) -> (taken: Option<V>)
        requires
            old(self).wf(),
        ensures
            final(self).wf(),
            final(self).as_map() == old(self).as_map().remove(key@),
            match taken {
                Some(value) => old(self).has(key@) && value == old(self).value(key@),
                None => !old(self).has(key@) && final(self).entries@ == old(self).entries@,
            },
    {
        let ghost before = *self;
        match self.find(key) {
            Some(at) => {
                proof {
                    before.lemma_place(at as int);
                }
                let entry = self.entries.remove(at);
                proof {
                    assert(self.keys() =~= before.keys().remove(at as int));
                    assert forall|i: int, j: int|
                        0 <= i < self.keys().len() && 0 <= j < self.keys().len() && i
                            != j implies self.keys()[i] != self.keys()[j] by {
                        let a = if i < at { i } else { i + 1 };
                        let b = if j < at { j } else { j + 1 };
                        assert(self.keys()[i] == before.keys()[a]);
                        assert(self.keys()[j] == before.keys()[b]);
                    }
                    assert forall|k: Text| self.has(k) <==> (k != key@ && before.has(k)) by {
                        if self.has(k) {
                            let i = choose|i: int| 0 <= i < self.keys().len() && self.keys()[i] == k;
                            let a = if i < at { i } else { i + 1 };
                            assert(before.keys()[a] == k);
                        }
                        if k != key@ && before.has(k) {
                            let a = choose|a: int|
                                0 <= a < before.keys().len() && before.keys()[a] == k;
                            let i = if a < at { a } else { a - 1 };
                            assert(self.keys()[i] == k);
                        }
                    }
                    assert forall|k: Text| self.has(k) implies #[trigger] self.value(k)
                        == before.value(k) by {
                        let i = choose|i: int| 0 <= i < self.keys().len() && self.keys()[i] == k;
                        let a = if i < at { i } else { i + 1 };
                        assert(before.keys()[a] == k);
                        self.lemma_place(i);
                        before.lemma_place(a);
                    }
                    assert(self.as_map() =~= before.as_map().remove(key@));
                }
                Some(entry.1)
            },
            None => {
                assert(self.as_map() =~= before.as_map().remove(key@));
                None
            },
        }
    }
}

impl NameMap<String> {
    /// The texts that the map holds, by key.
    pub open spec fn texts_by_key(&self) -> Map<Text, Text> {
        Map::new(|key: Text| self.has(key), |key: Text| self.value(key)@)
    }

    /// Inserting a string inserts its text.
    pub proof fn lemma_insert_text(before: Self, after: Self, key: Text, value: String)
        requires
            after.as_map() == before.as_map().insert(key, value),
        ensures
            after.texts_by_key() == before.texts_by_key().insert(key, value@),
    {
        assert forall|other: Text| after.has(other) <==> (other == key || before.has(other)) by {
            assert(after.as_map().contains_key(other) == after.has(other));
            assert(before.as_map().contains_key(other) == before.has(other));
        }
        assert forall|other: Text| after.has(other) implies (#[trigger] after.value(other))@ == (
        if other == key {
            value@
        } else {
            before.value(other)@
        }) by {
            assert(after.as_map().contains_key(other));
            assert(after.as_map()[other] == after.value(other));
            if other != key {
                assert(before.as_map().contains_key(other) == before.has(other));
                assert(before.as_map()[other] == before.value(other));
            }
        }
        assert(after.texts_by_key() =~= before.texts_by_key().insert(key, value@));
    }
}

impl Clone for NameMap<String> {
    fn clone(&self) -> (copy: Self)
        ensures
            copy.entries@ == self.entries@,
    {
        let mut entries: Vec<(String, String)> = Vec::new();
        let mut i: usize = 0;
        while i < self.entries.len()
            invariant
                i <= self.entries.len(),
                entries@ == self.entries@.subrange(0, i as int),
            decreases self.entries.len() - i,
        {
            let entry = (self.entries[i].0.clone(), self.entries[i].1.clone());
            assert(entry == self.entries@[i as int]);
            entries.push(entry);
            assert(entries@ =~= self.entries@.subrange(0, i + 1));
            i += 1;
        }
        assert(entries@ =~= self.entries@);
        NameMap { entries }
    }
}

} // verus!

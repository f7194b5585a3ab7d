//! A small map keyed by strings, kept as a vector of entries with distinct keys in insertion
//! order. It stands where the engine keys a map by channel, client or namespace name.

use vstd::prelude::*;

verus! {

spec fn keys_of<V>(es: Seq<(String, V)>) -> Seq<Seq<char>> {
    es.map_values(|e: (String, V)| e.0@)
}

/// Entries `(key, value)`; no key occurs twice.
#[derive(Debug)]
pub struct StrMap<V> {
    entries: Vec<(String, V)>,
}

impl<V> StrMap<V> {
    /// The keys, in insertion order.
    pub closed spec fn key_seq(&self) -> Seq<Seq<char>> {
        keys_of(self.entries@)
    }

    #[verifier::type_invariant]
    pub closed spec fn wf(&self) -> bool {
        self.key_seq().no_duplicates()
    }

    closed spec fn index_of(&self, k: Seq<char>) -> int {
        choose|i: int| 0 <= i < self.entries@.len() && self.entries@[i].0@ == k
    }

    pub closed spec fn view(&self) -> Map<Seq<char>, V> {
        Map::new(
            |k: Seq<char>| exists|i: int| 0 <= i < self.entries@.len() && self.entries@[i].0@ == k,
            |k: Seq<char>| self.entries@[self.index_of(k)].1,
        )
    }

    proof fn lemma_at(&self, i: int)
        requires
            self.wf(),
            0 <= i < self.entries@.len(),
        ensures
            self.view().dom().contains(self.entries@[i].0@),
            self.view()[self.entries@[i].0@] == self.entries@[i].1,
    {
        let k = self.entries@[i].0@;
        assert(self.key_seq()[i] == k);
        let j = self.index_of(k);
        assert(self.key_seq()[j] == k);
        assert(j == i);
    }

    proof fn lemma_dom_is_keys(&self)
        ensures
            self.view().dom() =~= self.key_seq().to_set(),
    {
        assert forall|k: Seq<char>| self.view().dom().contains(k) implies self.key_seq().contains(
            k,
        ) by {
            let i = choose|i: int| 0 <= i < self.entries@.len() && self.entries@[i].0@ == k;
            assert(self.key_seq()[i] == k);
        }
        assert forall|k: Seq<char>| self.key_seq().contains(k) implies self.view().dom().contains(
            k,
        ) by {
            let i = choose|i: int| 0 <= i < self.key_seq().len() && self.key_seq()[i] == k;
            assert(self.entries@[i].0@ == k);
        }
    }

    /// An empty map.
    pub fn new() -> (m: Self)
        ensures
            m@ == Map::<Seq<char>, V>::empty(),
    {
        let m = StrMap { entries: Vec::new() };
        assert(m.key_seq() =~= Seq::<Seq<char>>::empty());
        assert(m@ =~= Map::<Seq<char>, V>::empty());
        m
    }

    fn find(&self, k: &str) -> (r: Option<usize>)
        ensures
            match r {
                Some(i) => i < self.entries@.len() && self.entries@[i as int].0@ == k@,
                None => !self@.dom().contains(k@),
            },
    {
        let key = k.to_owned();
        let mut i: usize = 0;
        while i < self.entries.len()
            invariant
                i <= self.entries@.len(),
                key@ == k@,
                forall|j: int| 0 <= j < i ==> self.entries@[j].0@ != k@,
            decreases self.entries@.len() - i,
        {
            if self.entries[i].0 == key {
                return Some(i);
            }
            i = i + 1;
        }
        None
    }

    /// Whether `k` has an entry.
    pub fn contains_key(&self, k: &str) -> (b: bool)
        ensures
            b == self@.dom().contains(k@),
    {
        proof {
            use_type_invariant(self);
        }
        match self.find(k) {
            Some(i) => {
                proof {
                    self.lemma_at(i as int);
                }
                true
            },
            None => false,
        }
    }

    /// The value of `k`, if any.
    pub fn get(&self, k: &str) -> (r: Option<&V>)
        ensures
            r is Some == self@.dom().contains(k@),
            r matches Some(v) ==> *v == self@[k@],
    {
        proof {
            use_type_invariant(self);
        }
        match self.find(k) {
            Some(i) => {
                proof {
                    self.lemma_at(i as int);
                }
                Some(&self.entries[i].1)
            },
            None => None,
        }
    }

    /// Sets the value of `k`, returning the value it replaces.
    pub fn insert(&mut self, k: String, v: V) -> (old_v: Option<V>)
        ensures
            final(self)@ == old(self)@.insert(k@, v),
            old_v is Some == old(self)@.dom().contains(k@),
            old_v matches Some(x) ==> x == old(self)@[k@],
    {
        proof {
            use_type_invariant(&*self);
        }
        match self.find(k.as_str()) {
            Some(i) => {
                proof {
                    self.lemma_at(i as int);
                }
                let ghost before = self.entries@;
                let mut es: Vec<(String, V)> = Vec::new();
                std::mem::swap(&mut es, &mut self.entries);
                let (k0, x) = es.remove(i);
                es.insert(i, (k0, v));
                assert(es@ =~= before.update(i as int, (before[i as int].0, v)));
                assert(keys_of(es@) =~= keys_of(before));
                self.entries = es;
                assert(self.key_seq() =~= old(self).key_seq());
                assert forall|key: Seq<char>|
                    #![trigger self@.dom().contains(key)]
                    self@.dom().contains(key) == old(self)@.insert(k@, v).dom().contains(key) by {
                    if self@.dom().contains(key) {
                        let j = choose|j: int|
                            0 <= j < self.entries@.len() && self.entries@[j].0@ == key;
                        assert(old(self).entries@[j].0@ == key);
                    }
                    if old(self)@.dom().contains(key) {
                        let j = choose|j: int|
                            0 <= j < old(self).entries@.len() && old(self).entries@[j].0@ == key;
                        assert(self.entries@[j].0@ == key);
                    }
                }
                assert forall|key: Seq<char>| #[trigger]
                    self@.dom().contains(key) implies self@[key] == old(self)@.insert(
                    k@,
                    v,
                )[key] by {
                    let j = choose|j: int|
                        0 <= j < self.entries@.len() && self.entries@[j].0@ == key;
                    self.lemma_at(j);
                    if j != i {
                        old(self).lemma_at(j);
                        assert(old(self).key_seq()[j] != old(self).key_seq()[i as int]);
                        assert(self.entries@[j] == old(self).entries@[j]);
                    }
                }
                assert(self@ =~= old(self)@.insert(k@, v));
                Some(x)
            },
            None => {
                let ghost kv = k@;
                let mut es: Vec<(String, V)> = Vec::new();
                std::mem::swap(&mut es, &mut self.entries);
                es.push((k, v));
                let n = es.len() - 1;
                assert(keys_of(es@) =~= old(self).key_seq().push(kv));
                assert(!old(self).key_seq().contains(kv)) by {
                    old(self).lemma_dom_is_keys();
                }
                self.entries = es;
                assert(self.key_seq() =~= old(self).key_seq().push(kv));
                assert forall|key: Seq<char>|
                    #![trigger self@.dom().contains(key)]
                    self@.dom().contains(key) == old(self)@.insert(kv, v).dom().contains(key) by {
                    if self@.dom().contains(key) {
                        let j = choose|j: int|
                            0 <= j < self.entries@.len() && self.entries@[j].0@ == key;
                        if j < n {
                            assert(old(self).entries@[j].0@ == key);
                        }
                    }
                    if old(self)@.dom().contains(key) {
                        let j = choose|j: int|
                            0 <= j < old(self).entries@.len() && old(self).entries@[j].0@ == key;
                        assert(self.entries@[j].0@ == key);
                    }
                    if key == kv {
                        assert(self.entries@[n as int].0@ == key);
                    }
                }
                assert forall|key: Seq<char>| #[trigger]
                    self@.dom().contains(key) implies self@[key] == old(self)@.insert(kv, v)[key] by {
                    let j = choose|j: int|
                        0 <= j < self.entries@.len() && self.entries@[j].0@ == key;
                    self.lemma_at(j);
                    if j < n {
                        old(self).lemma_at(j);
                    }
                }
                assert(self@ =~= old(self)@.insert(kv, v));
                None
            },
        }
    }

    /// Removes the entry of `k`, returning its value.
    pub fn remove(&mut self, k: &str) -> (old_v: Option<V>)
        ensures
            final(self)@ == old(self)@.remove(k@),
            old_v is Some == old(self)@.dom().contains(k@),
            old_v matches Some(x) ==> x == old(self)@[k@],
    {
        proof {
            use_type_invariant(&*self);
        }
        match self.find(k) {
            Some(i) => {
                proof {
                    self.lemma_at(i as int);
                }
                let ghost before = self.entries@;
                let mut es: Vec<(String, V)> = Vec::new();
                std::mem::swap(&mut es, &mut self.entries);
                let (_k0, x) = es.remove(i);
                assert(es@ =~= before.remove(i as int));
                let ghost ks = keys_of(es@);
                assert(ks =~= old(self).key_seq().remove(i as int));
                assert(ks.no_duplicates()) by {
                    assert forall|a: int, b: int|
                        0 <= a < ks.len() && 0 <= b < ks.len() && a != b implies ks[a] != ks[b] by {
                        let a0 = if a < i { a } else { a + 1 };
                        let b0 = if b < i { b } else { b + 1 };
                        assert(ks[a] == old(self).key_seq()[a0]);
                        assert(ks[b] == old(self).key_seq()[b0]);
                    }
                }
                self.entries = es;
                assert(self.key_seq() == ks);
                assert forall|key: Seq<char>|
                    #![trigger self@.dom().contains(key)]
                    self@.dom().contains(key) == old(self)@.remove(k@).dom().contains(key) by {
                    if self@.dom().contains(key) {
                        let j = choose|j: int|
                            0 <= j < self.entries@.len() && self.entries@[j].0@ == key;
                        let j0 = if j < i { j } else { j + 1 };
                        assert(old(self).entries@[j0].0@ == key);
                        assert(old(self).key_seq()[j0] != old(self).key_seq()[i as int]);
                    }
                    if old(self)@.remove(k@).dom().contains(key) {
                        let j = choose|j: int|
                            0 <= j < old(self).entries@.len() && old(self).entries@[j].0@ == key;
                        assert(j != i);
                        let j1 = if j < i { j } else { j - 1 };
                        assert(self.entries@[j1].0@ == key);
                    }
                }
                assert forall|key: Seq<char>| #[trigger]
                    self@.dom().contains(key) implies self@[key] == old(self)@.remove(k@)[key] by {
                    let j = choose|j: int|
                        0 <= j < self.entries@.len() && self.entries@[j].0@ == key;
                    self.lemma_at(j);
                    let j0 = if j < i { j } else { j + 1 };
                    old(self).lemma_at(j0);
                }
                assert(self@ =~= old(self)@.remove(k@));
                Some(x)
            },
            None => {
                assert(self@ =~= old(self)@.remove(k@));
                None
            },
        }
    }

    /// The number of entries.
    pub fn len(&self) -> (n: usize)
        ensures
            n == self@.dom().len(),
    {
        proof {
            use_type_invariant(self);
            self.lemma_dom_is_keys();
            self.key_seq().unique_seq_to_set();
        }
        self.entries.len()
    }

    /// The keys, each once, in insertion order.
    pub fn keys(&self) -> (ks: Vec<String>)
        ensures
            crate::text::views(ks@) == self.key_seq(),
            crate::text::views(ks@).no_duplicates(),
            crate::text::views(ks@).to_set() == self@.dom(),
    {
        let mut ks: Vec<String> = Vec::new();
        let mut i: usize = 0;
        while i < self.entries.len()
            invariant
                i <= self.entries@.len(),
                crate::text::views(ks@) == self.key_seq().take(i as int),
            decreases self.entries@.len() - i,
        {
            let ghost before = ks@;
            ks.push(self.entries[i].0.clone());
            assert(crate::text::views(ks@) =~= crate::text::views(before).push(
                self.entries@[i as int].0@,
            ));
            assert(self.key_seq().take(i as int + 1) =~= self.key_seq().take(i as int).push(
                self.key_seq()[i as int],
            ));
            i = i + 1;
        }
        assert(self.key_seq().take(self.entries@.len() as int) =~= self.key_seq());
        proof {
            use_type_invariant(self);
            self.lemma_dom_is_keys();
        }
        ks
    }

    /// The entry at position `i` (insertion order), for walking the map.
    pub fn entry_at(&self, i: usize) -> (e: (&String, &V))
        requires
            i < self.key_seq().len(),
        ensures
            e.0@ == self.key_seq()[i as int],
            self@.dom().contains(e.0@),
            *e.1 == self@[e.0@],
    {
        proof {
            use_type_invariant(self);
            self.lemma_at(i as int);
        }
        let e = &self.entries[i];
        (&e.0, &e.1)
    }

    /// A map with no entries has an empty domain.
    pub fn lemma_empty_dom(&self)
        requires
            self@.dom().len() == 0,
        ensures
            self@.dom() == Set::<Seq<char>>::empty(),
    {
        proof {
            use_type_invariant(self);
            self.lemma_dom_is_keys();
            self.key_seq().unique_seq_to_set();
            assert(self.key_seq().len() == 0);
            assert(self@.dom() =~= Set::<Seq<char>>::empty());
        }
    }

    pub proof fn lemma_key_seq_len(&self)
        requires
            self.wf(),
        ensures
            self.key_seq().no_duplicates(),
            self.key_seq().len() == self@.dom().len(),
            self.key_seq().to_set() == self@.dom(),
    {
        self.lemma_dom_is_keys();
        self.key_seq().unique_seq_to_set();
    }
}

impl<V: Clone> Clone for StrMap<V> {
    /// A copy with the same keys, in the same order, each value cloned.
    fn clone(&self) -> (r: Self)
        ensures
            r.key_seq() == self.key_seq(),
            r@.dom() == self@.dom(),
            forall|k: Seq<char>| #[trigger] self@.dom().contains(k) ==> cloned::<V>(self@[k], r@[k]),
    {
        proof {
            use_type_invariant(self);
        }
        let mut es: Vec<(String, V)> = Vec::new();
        let mut i: usize = 0;
        while i < self.entries.len()
            invariant
                i <= self.entries@.len(),
                es@.len() == i,
                keys_of(es@) == keys_of(self.entries@).take(i as int),
                forall|j: int| 0 <= j < i ==> cloned::<V>(self.entries@[j].1, #[trigger] es@[j].1),
            decreases self.entries@.len() - i,
        {
            let e = &self.entries[i];
            let k = e.0.clone();
            let v = e.1.clone();
            let ghost before = es@;
            es.push((k, v));
            assert(keys_of(es@) =~= keys_of(before).push(self.entries@[i as int].0@));
            assert(keys_of(self.entries@).take(i as int + 1) =~= keys_of(self.entries@).take(
                i as int,
            ).push(keys_of(self.entries@)[i as int]));
            i = i + 1;
        }
        assert(keys_of(self.entries@).take(self.entries@.len() as int) =~= keys_of(self.entries@));
        let r = StrMap { entries: es };
        proof {
            r.lemma_dom_is_keys();
            self.lemma_dom_is_keys();
            assert(r@.dom() =~= self@.dom());
            assert forall|k: Seq<char>| #[trigger] self@.dom().contains(k) implies cloned::<V>(
                self@[k],
                r@[k],
            ) by {
                let j = choose|j: int| 0 <= j < self.entries@.len() && self.entries@[j].0@ == k;
                self.lemma_at(j);
                assert(r.key_seq()[j] == k);
                r.lemma_at(j);
            }
        }
        r
    }
}

} // verus!

//! A map keyed by strings, kept as a list of pairs in insertion order.
use vstd::prelude::*;
use crate::assoc::{distinct_keys, pairs_map, lemma_pairs_map, lemma_pairs_map_lookup, lemma_pairs_map_update,
    lemma_pairs_map_push, lemma_pairs_map_remove, lemma_pairs_map_len};

verus! {

/// A map from strings to values.
pub struct StrMap<V> {
    pairs: Vec<(String, V)>,
}

/// The pairs with each key by its characters.
pub open spec fn keyed<V>(v: Seq<(String, V)>) -> Seq<(Seq<char>, V)> {
    v.map_values(|p: (String, V)| (p.0@, p.1))
}

impl<V> StrMap<V> {
    /// The pairs, in insertion order.
    pub closed spec fn entries(&self) -> Seq<(Seq<char>, V)> {
        keyed(self.pairs@)
    }

    /// The map the pairs stand for.
    pub closed spec fn map(&self) -> Map<Seq<char>, V> {
        pairs_map(self.entries(), self.entries().len() as int)
    }

    /// Keys do not repeat.
    pub closed spec fn wf(&self) -> bool {
        distinct_keys(self.entries())
    }

    /// The map holds exactly the keys of the pairs, each with its value.
    pub proof fn lemma_entries(&self)
        requires
            self.wf(),
        ensures
            forall|k: Seq<char>| #[trigger] self.map().contains_key(k)
                <==> exists|i: int| 0 <= i < self.entries().len() && self.entries()[i].0 == k,
            forall|i: int| 0 <= i < self.entries().len() ==> #[trigger] self.map()[self.entries()[i].0] == self.entries()[i].1,
            self.map().dom().finite(),
            self.map().dom().len() == self.entries().len(),
            distinct_keys(self.entries()),
    {
        lemma_pairs_map(self.entries(), self.entries().len() as int);
        lemma_pairs_map_len(self.entries());
    }

    /// An empty map.
    pub fn new() -> (r: Self)
        ensures
            r.wf(),
            r.map() == Map::<Seq<char>, V>::empty(),
            r.entries().len() == 0,
    {
        let r = StrMap { pairs: Vec::new() };
        assert(r.entries() =~= Seq::<(Seq<char>, V)>::empty());
        r
    }

    /// The position of the key.
    fn position(&self, key: &str) -> (r: Option<usize>)
        requires
            self.wf(),
        ensures
            match r {
                Some(i) => i < self.entries().len() && self.entries()[i as int].0 == key@,
                None => forall|j: int| 0 <= j < self.entries().len() ==> #[trigger] self.entries()[j].0 != key@,
            },
    {
        let k = String::from_str(key);
        let mut i: usize = 0;
        while i < self.pairs.len()
            invariant
                i <= self.pairs.len(),
                k@ == key@,
                forall|j: int| 0 <= j < i ==> #[trigger] self.entries()[j].0 != key@,
            decreases self.pairs.len() - i,
        {
            if self.pairs[i].0 == k {
                return Some(i);
            }
            i = i + 1;
        }
        None
    }

    /// Whether the key is present.
    pub fn contains_key(&self, key: &str) -> (r: bool)
        requires
            self.wf(),
        ensures
            r == self.map().contains_key(key@),
    {
        proof {
            lemma_pairs_map_lookup(self.entries(), key@);
        }
        self.position(key).is_some()
    }

    /// The value of the key.
    pub fn get(&self, key: &str) -> (r: Option<&V>)
        requires
            self.wf(),
        ensures
            match r {
                Some(v) => self.map().contains_key(key@) && self.map()[key@] == *v,
                None => !self.map().contains_key(key@),
            },
    {
        proof {
            lemma_pairs_map_lookup(self.entries(), key@);
        }
        match self.position(key) {
            Some(i) => {
                assert(self.entries()[i as int].0 == key@);
                Some(&self.pairs[i].1)
            },
            None => None,
        }
    }

    /// Sets the value of the key, handing back the one it replaces. A new
    /// key goes last in insertion order.
    pub fn insert(&mut self, key: String, value: V) -> (r: Option<V>)
        requires
            old(self).wf(),
        ensures
            final(self).wf(),
            final(self).map() == old(self).map().insert(key@, value),
            match r {
                Some(v) => old(self).map().contains_key(key@) && old(self).map()[key@] == v,
                None => !old(self).map().contains_key(key@),
            },
    {
        let ghost s = self.entries();
        let ghost k = key@;
        let ghost val = value;
        proof {
            lemma_pairs_map_lookup(s, k);
        }
        match self.position(key.as_str()) {
            Some(i) => {
                let (_, prev) = self.pairs.remove(i);
                self.pairs.insert(i, (key, value));
                proof {
                    assert(self.entries() =~= s.update(i as int, (k, val)));
                    lemma_pairs_map_update(s, i as int, k, val);
                }
                Some(prev)
            },
            None => {
                self.pairs.push((key, value));
                proof {
                    assert(self.entries() =~= s.push((k, val)));
                    lemma_pairs_map_push(s, k, val);
                }
                None
            },
        }
    }

    /// Removes the key, handing back its value. The other keys keep their
    /// insertion order.
    pub fn remove(&mut self, key: &str) -> (r: Option<V>)
        requires
            old(self).wf(),
        ensures
            final(self).wf(),
            final(self).map() == old(self).map().remove(key@),
            match r {
                Some(v) => old(self).map().contains_key(key@) && old(self).map()[key@] == v,
                None => !old(self).map().contains_key(key@),
            },
    {
        let ghost s = self.entries();
        proof {
            lemma_pairs_map_lookup(s, key@);
        }
        match self.position(key) {
            Some(i) => {
                let (_, v) = self.pairs.remove(i);
                proof {
                    assert(self.entries() =~= s.remove(i as int));
                    lemma_pairs_map_remove(s, i as int);
                }
                Some(v)
            },
            None => {
                assert(self.map() =~= old(self).map().remove(key@));
                None
            },
        }
    }

    /// The number of keys.
    pub fn len(&self) -> (r: usize)
        requires
            self.wf(),
        ensures
            r == self.map().dom().len(),
    {
        proof {
            lemma_pairs_map_len(self.entries());
        }
        self.pairs.len()
    }

    /// The keys, in insertion order.
    pub fn keys(&self) -> (r: Vec<String>)
        requires
            self.wf(),
        ensures
            r@.len() == self.entries().len(),
            forall|i: int| 0 <= i < r@.len() ==> #[trigger] r@[i]@ == self.entries()[i].0,
    {
        let mut r: Vec<String> = Vec::new();
        let mut i: usize = 0;
        while i < self.pairs.len()
            invariant
                i <= self.pairs.len(),
                r@.len() == i,
                forall|j: int| 0 <= j < i ==> #[trigger] r@[j]@ == self.entries()[j].0,
            decreases self.pairs.len() - i,
        {
            r.push(self.pairs[i].0.clone());
            i = i + 1;
        }
        r
    }

    /// Empties the map, handing back its pairs in insertion order.
    pub fn take_all(&mut self) -> (r: Vec<(String, V)>)
        requires
            old(self).wf(),
        ensures
            final(self).wf(),
            final(self).map() == Map::<Seq<char>, V>::empty(),
            keyed(r@) == old(self).entries(),
    {
        let mut r: Vec<(String, V)> = Vec::new();
        std::mem::swap(&mut r, &mut self.pairs);
        assert(self.entries() =~= Seq::<(Seq<char>, V)>::empty());
        r
    }
}

} // verus!

//! A map keyed by strings that remembers insertion order.
//!
//! It stands where the report format uses a `BTreeMap<String, _>`: the view is
//! the same mathematical map; key order only matters when the report is
//! written out, and the JSON layer sorts keys there.

use vstd::prelude::*;

verus! {

/// Map from `String` keys to values, each key at most once.
#[derive(Debug)]
pub struct StrMap<V> {
    entries: Vec<(String, V)>,
}

impl<V> StrMap<V> {
    /// The keys, in insertion order.
    pub closed spec fn keys(&self) -> Seq<Seq<char>> {
        Seq::new(self.entries@.len(), |i: int| self.entries@[i].0@)
    }

    /// No key occurs twice.
    #[verifier::type_invariant]
    closed spec fn wf(&self) -> bool {
        self.keys().no_duplicates()
    }

    /// The stored values, in key order.
    pub closed spec fn values(&self) -> Seq<V> {
        Seq::new(self.entries@.len(), |i: int| self.entries@[i].1)
    }

}

impl<V: View> StrMap<V> {
    /// The mathematical map the entries denote.
    pub closed spec fn as_map(&self) -> Map<Seq<char>, V::V> {
        Map::new(
            |k: Seq<char>| self.keys().contains(k),
            |k: Seq<char>| self.entries@[self.keys().index_of(k)].1@,
        )
    }

    proof fn lemma_value_at(&self, i: int)
        requires
            self.wf(),
            0 <= i < self.keys().len(),
        ensures
            self.as_map().dom().contains(self.keys()[i]),
            self.as_map()[self.keys()[i]] == self.entries@[i].1@,
    {
        let k = self.keys()[i];
        assert(self.keys().contains(k));
        let j = self.keys().index_of(k);
        assert(self.keys()[j] == k);
    }

    /// The domain of the view is exactly the set of keys.
    pub proof fn lemma_dom(&self)
        ensures
            forall|k: Seq<char>| #[trigger] self@.dom().contains(k) <==> self.keys().contains(k),
            self@.dom() == self.keys().to_set(),
            self@.dom().finite(),
    {
        assert(self@.dom() =~= self.keys().to_set());
        vstd::seq_lib::seq_to_set_is_finite(self.keys());
    }

    /// An empty map.
    pub fn new() -> (m: Self)
        ensures
            m.keys() == Seq::<Seq<char>>::empty(),
            m@ == Map::<Seq<char>, V::V>::empty(),
    {
        let m = StrMap { entries: Vec::new() };
        assert(m.keys() =~= Seq::<Seq<char>>::empty());
        assert(m@ =~= Map::<Seq<char>, V::V>::empty());
        m
    }

    /// Number of keys.
    pub fn len(&self) -> (n: usize)
        ensures
            n == self.keys().len(),
            n == self@.len(),
            self@.dom().finite(),
            self.keys().no_duplicates(),
            forall|k: Seq<char>| #[trigger] self@.dom().contains(k) <==> self.keys().contains(k),
    {
        proof {
            use_type_invariant(self);
            self.lemma_dom();
            self.keys().unique_seq_to_set();
        }
        self.entries.len()
    }

    /// Whether there are no keys.
    pub fn is_empty(&self) -> (b: bool)
        ensures
            b == (self.keys().len() == 0),
            b == (self@ == Map::<Seq<char>, V::V>::empty()),
    {
        proof {
            self.lemma_dom();
            if self.keys().len() > 0 {
                assert(self@.dom().contains(self.keys()[0]));
            } else {
                assert(self@ =~= Map::<Seq<char>, V::V>::empty());
            }
        }
        self.entries.len() == 0
    }

    /// The `i`-th key in insertion order.
    pub fn key_at(&self, i: usize) -> (k: &String)
        requires
            i < self.keys().len(),
        ensures
            k@ == self.keys()[i as int],
    {
        &self.entries[i].0
    }

    /// The value stored under the `i`-th key.
    pub fn value_at(&self, i: usize) -> (v: &V)
        requires
            i < self.keys().len(),
        ensures
            self@.dom().contains(self.keys()[i as int]),
            v@ == self@[self.keys()[i as int]],
            *v == self.values()[i as int],
    {
        proof {
            use_type_invariant(self);
            self.lemma_value_at(i as int);
        }
        &self.entries[i].1
    }

    /// Position of `key`, if present.
    pub fn find(&self, key: &str) -> (r: Option<usize>)
        ensures
            match r {
                Some(i) => i < self.keys().len() && self.keys()[i as int] == key@
                    && self@.dom().contains(key@),
                None => !self@.dom().contains(key@),
            },
    {
        proof { use_type_invariant(self); }
        let k = key.to_owned();
        let mut i: usize = 0;
        while i < self.entries.len()
            invariant
                i <= self.entries@.len(),
                self.wf(),
                k@ == key@,
                forall|j: int| 0 <= j < i ==> self.keys()[j] != key@,
            decreases self.entries@.len() - i,
        {
            if self.entries[i].0 == k {
                proof { self.lemma_value_at(i as int); }
                return Some(i);
            }
            i += 1;
        }
        proof {
            if self.keys().contains(key@) {
                let j = choose|j: int| 0 <= j < self.keys().len() && self.keys()[j] == key@;
                assert(j < i);
            }
        }
        None
    }

    /// Whether `key` is present.
    pub fn contains_key(&self, key: &str) -> (b: bool)
        ensures
            b == self@.dom().contains(key@),
    {
        self.find(key).is_some()
    }

    /// The value stored under `key`, if any.
    pub fn get(&self, key: &str) -> (r: Option<&V>)
        ensures
            r is Some == self@.dom().contains(key@),
            r matches Some(v) ==> v@ == self@[key@],
    {
        match self.find(key) {
            Some(i) => Some(self.value_at(i)),
            None => None,
        }
    }

    /// Adds a key that is not present yet.
    pub fn push_new(&mut self, key: String, value: V)
        requires
            !old(self)@.dom().contains(key@),
        ensures
            final(self).keys() == old(self).keys().push(key@),
            final(self)@ == old(self)@.insert(key@, value@),
    {
        proof { use_type_invariant(&*self); }
        let ghost old_keys = self.keys();
        let ghost old_map = self@;
        let ghost old_values = self.values();
        let ghost kv = key@;
        let ghost vv = value@;
        let ghost value0 = value;
        let mut es: Vec<(String, V)> = Vec::new();
        std::mem::swap(&mut es, &mut self.entries);
        es.push((key, value));
        proof {
            let ks = Seq::new(es@.len(), |i: int| es@[i].0@);
            assert(ks =~= old_keys.push(kv));
            assert(!old_keys.contains(kv));
            assert(ks.no_duplicates());
        }
        self.entries = es;
        assert(self.values() =~= old_values.push(value0));
        assert(self.keys() =~= old_keys.push(kv));
        assert(self@ =~= old_map.insert(kv, vv)) by {
            assert forall|k: Seq<char>| #[trigger] self@.dom().contains(k) <==> old_map.insert(kv, vv).dom().contains(k) by {
                if old_keys.contains(k) {
                    let j0 = choose|j: int| 0 <= j < old_keys.len() && old_keys[j] == k;
                    assert(self.keys()[j0] == k);
                }
                if k == kv {
                    assert(self.keys()[old_keys.len() as int] == k);
                }
                if self.keys().contains(k) {
                    let j1 = choose|j: int| 0 <= j < self.keys().len() && self.keys()[j] == k;
                    if j1 < old_keys.len() {
                        assert(old_keys[j1] == k);
                    }
                }
            }
            assert forall|k: Seq<char>| #[trigger] self@.dom().contains(k) implies self@[k] == old_map.insert(kv, vv)[k] by {
                let j = self.keys().index_of(k);
                assert(self.keys()[j] == k);
                if k == kv {
                    assert(j == old_keys.len());
                } else {
                    assert(j < old_keys.len());
                    assert(old_keys.contains(k));
                    let j0 = old_keys.index_of(k);
                    assert(old_keys[j0] == k);
                    assert(j0 == j);
                }
            }
        }
    }

    /// Replaces the value of the `i`-th key, handing back the old value.
    pub fn replace_at(&mut self, i: usize, value: V) -> (prev: V)
        requires
            i < old(self).keys().len(),
        ensures
            final(self).keys() == old(self).keys(),
            final(self).values() == old(self).values().update(i as int, value),
            prev == old(self).values()[i as int],
            final(self)@ == old(self)@.insert(old(self).keys()[i as int], value@),
            prev@ == old(self)@[old(self).keys()[i as int]],
    {
        proof { use_type_invariant(&*self); }
        let ghost old_keys = self.keys();
        let ghost old_map = self@;
        let ghost old_values = self.values();
        let ghost vv = value@;
        let ghost value0 = value;
        proof { self.lemma_value_at(i as int); }
        let mut es: Vec<(String, V)> = Vec::new();
        std::mem::swap(&mut es, &mut self.entries);
        let (k, prev) = es.remove(i);
        es.insert(i, (k, value));
        proof {
            let ks = Seq::new(es@.len(), |j: int| es@[j].0@);
            assert(ks =~= old_keys);
        }
        self.entries = es;
        assert(self.keys() =~= old_keys);
        assert(self.values() =~= old_values.update(i as int, value0));
        let ghost kv = old_keys[i as int];
        assert(self@ =~= old_map.insert(kv, vv)) by {
            assert forall|key: Seq<char>| #[trigger] self@.dom().contains(key) implies self@[key] == old_map.insert(kv, vv)[key] by {
                let j = self.keys().index_of(key);
                assert(self.keys()[j] == key);
                let j0 = old_keys.index_of(key);
                assert(old_keys[j0] == key);
                assert(j0 == j);
            }
        }
        prev
    }

    /// Stores `value` under `key`, replacing any previous value.
    pub fn insert(&mut self, key: String, value: V)
        ensures
            final(self)@ == old(self)@.insert(key@, value@),
            old(self)@.dom().contains(key@) ==> final(self).keys() == old(self).keys(),
            !old(self)@.dom().contains(key@) ==> final(self).keys() == old(self).keys().push(key@),
    {
        match self.find(key.as_str()) {
            Some(i) => {
                let _ = self.replace_at(i, value);
            },
            None => {
                self.push_new(key, value);
            },
        }
    }
}

impl<V: View> View for StrMap<V> {
    type V = Map<Seq<char>, V::V>;

    open spec fn view(&self) -> Map<Seq<char>, V::V> {
        self.as_map()
    }
}

} // verus!

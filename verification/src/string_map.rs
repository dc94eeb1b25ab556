//! A small map keyed by strings, kept as a vector of entries in insertion
//! order, viewed as a mathematical map.
use vstd::prelude::*;

verus! {

/// A map from strings to values.
pub struct StringMap<V> {
    entries: Vec<(String, V)>,
}

pub open spec fn keys_of<V>(s: Seq<(String, V)>) -> Seq<Seq<char>> {
    s.map_values(|e: (String, V)| e.0@)
}

impl<V> View for StringMap<V> {
    type V = Map<Seq<char>, V>;

    closed spec fn view(&self) -> Map<Seq<char>, V> {
        Map::new(
            |k: Seq<char>| keys_of(self.entries@).contains(k),
            |k: Seq<char>| self.entries@[keys_of(self.entries@).index_of(k)].1,
        )
    }
}

proof fn lemma_index_of_distinct(ss: Seq<Seq<char>>, i: int)
    requires
        ss.no_duplicates(),
        0 <= i < ss.len(),
    ensures
        ss.contains(ss[i]),
        ss.index_of(ss[i]) == i,
{
    assert(ss.contains(ss[i]));
    let k = ss.index_of(ss[i]);
    assert(ss[k] == ss[i]);
}

impl<V> StringMap<V> {
    /// No key occurs twice.
    pub closed spec fn wf(&self) -> bool {
        keys_of(self.entries@).no_duplicates()
    }

    pub fn new() -> (m: StringMap<V>)
        ensures
            m.wf(),
            m@ == Map::<Seq<char>, V>::empty(),
    {
        let m = StringMap { entries: Vec::new() };
        assert(keys_of(m.entries@) =~= Seq::<Seq<char>>::empty());
        assert(m@ =~= Map::<Seq<char>, V>::empty());
        m
    }

    pub fn len(&self) -> (n: usize)
        requires
            self.wf(),
        ensures
            n == self@.len(),
    {
        proof {
            self.lemma_len();
        }
        self.entries.len()
    }

    pub fn is_empty(&self) -> (b: bool)
        requires
            self.wf(),
        ensures
            b == (self@ == Map::<Seq<char>, V>::empty()),
    {
        proof {
            self.lemma_len();
            if self.entries@.len() > 0 {
                let k = self.entries@[0].0@;
                assert(keys_of(self.entries@)[0] == k);
                assert(self@.contains_key(k));
            } else {
                assert(self@ =~= Map::<Seq<char>, V>::empty());
            }
        }
        self.entries.len() == 0
    }

    proof fn lemma_len(&self)
        requires
            self.wf(),
        ensures
            self@.dom().finite(),
            self@.len() == self.entries@.len(),
    {
        let ks = keys_of(self.entries@);
        ks.unique_seq_to_set();
        assert(self@.dom() =~= ks.to_set());
    }

    fn position(&self, k: &String) -> (r: Option<usize>)
        requires
            self.wf(),
        ensures
            match r {
                Some(i) => i < self.entries@.len() && self.entries@[i as int].0@ == k@
                    && keys_of(self.entries@).index_of(k@) == i && self@.contains_key(k@),
                None => !self@.contains_key(k@),
            },
    {
        let n = self.entries.len();
        let mut i: usize = 0;
        while i < n
            invariant
                self.wf(),
                n == self.entries@.len(),
                i <= n,
                forall|j: int| 0 <= j < i ==> self.entries@[j].0@ != k@,
            decreases n - i,
        {
            if self.entries[i].0 == *k {
                proof {
                    let ks = keys_of(self.entries@);
                    assert(ks[i as int] == k@);
                    lemma_index_of_distinct(ks, i as int);
                }
                return Some(i);
            }
            i = i + 1;
        }
        proof {
            let ks = keys_of(self.entries@);
            if ks.contains(k@) {
                let j = choose|j: int| 0 <= j < ks.len() && ks[j] == k@;
                assert(self.entries@[j].0@ == k@);
            }
        }
        None
    }

    pub fn contains_key(&self, k: &String) -> (b: bool)
        requires
            self.wf(),
        ensures
            b == self@.contains_key(k@),
    {
        self.position(k).is_some()
    }

    /// The value for `k`, if any.
    pub fn get(&self, k: &String) -> (r: Option<&V>)
        requires
            self.wf(),
        ensures
            match r {
                Some(v) => self@.contains_key(k@) && *v == self@[k@],
                None => !self@.contains_key(k@),
            },
    {
        match self.position(k) {
            Some(i) => Some(&self.entries[i].1),
            None => None,
        }
    }

    /// Removes the entry for `k`, returning its value.
    pub fn remove(&mut self, k: &String) -> (r: Option<V>)
        requires
            old(self).wf(),
        ensures
            final(self).wf(),
            final(self)@ == old(self)@.remove(k@),
            match r {
                Some(v) => old(self)@.contains_key(k@) && v == old(self)@[k@],
                None => !old(self)@.contains_key(k@),
            },
    {
        match self.position(k) {
            None => {
                assert(self@ =~= old(self)@.remove(k@));
                None
            },
            Some(i) => {
                let ghost before = self.entries@;
                let (_key, v) = self.entries.remove(i);
                proof {
                    let ks0 = keys_of(before);
                    let ks = keys_of(self.entries@);
                    assert(ks =~= ks0.remove(i as int));
                    assert(ks.no_duplicates()) by {
                        assert forall|a: int, b: int|
                            0 <= a < ks.len() && 0 <= b < ks.len() && a != b implies ks[a]
                            != ks[b] by {
                            let a0 = if a < i { a } else { a + 1 };
                            let b0 = if b < i { b } else { b + 1 };
                            assert(ks[a] == ks0[a0]);
                            assert(ks[b] == ks0[b0]);
                        }
                    }
                    assert forall|key: Seq<char>|
                        #[trigger] self@.contains_key(key) == old(self)@.remove(k@).contains_key(
                            key,
                        ) by {
                        if ks.contains(key) {
                            let a = choose|a: int| 0 <= a < ks.len() && ks[a] == key;
                            let a0 = if a < i { a } else { a + 1 };
                            assert(ks0[a0] == key);
                            assert(key != k@);
                        }
                        if key != k@ && ks0.contains(key) {
                            let a0 = choose|a: int| 0 <= a < ks0.len() && ks0[a] == key;
                            assert(a0 != i);
                            let a = if a0 < i { a0 } else { a0 - 1 };
                            assert(ks[a] == key);
                        }
                    }
                    assert forall|key: Seq<char>| #[trigger]
                        self@.contains_key(key) implies self@[key] == old(self)@[key] by {
                        let a = ks.index_of(key);
                        lemma_index_of_distinct(ks, a);
                        let a0 = if a < i { a } else { a + 1 };
                        assert(ks0[a0] == key);
                        lemma_index_of_distinct(ks0, a0);
                    }
                    assert(self@ =~= old(self)@.remove(k@));
                }
                Some(v)
            },
        }
    }

    /// Sets the value for `k`: an existing entry keeps its place, a new one
    /// comes last.
    pub fn insert(&mut self, k: String, v: V)
        requires
            old(self).wf(),
        ensures
            final(self).wf(),
            final(self)@ == old(self)@.insert(k@, v),
    {
        match self.position(&k) {
            Some(i) => {
                let ghost before = self.entries@;
                self.entries.set(i, (k, v));
                proof {
                    let ks0 = keys_of(before);
                    let ks = keys_of(self.entries@);
                    assert(ks =~= ks0);
                    assert forall|key: Seq<char>| #[trigger]
                        self@.contains_key(key) implies self@[key] == old(self)@.insert(
                            k@,
                            v,
                        )[key] by {
                        let a = ks.index_of(key);
                        lemma_index_of_distinct(ks, a);
                    }
                    assert(self@ =~= old(self)@.insert(k@, v));
                }
            },
            None => {
                let ghost before = self.entries@;
                let ghost kv = k@;
                self.entries.push((k, v));
                proof {
                    let ks0 = keys_of(before);
                    let ks = keys_of(self.entries@);
                    assert(ks =~= ks0.push(kv));
                    assert(ks.no_duplicates()) by {
                        assert forall|a: int, b: int|
                            0 <= a < ks.len() && 0 <= b < ks.len() && a != b implies ks[a]
                            != ks[b] by {
                            if a < ks0.len() && b < ks0.len() {
                                assert(ks[a] == ks0[a]);
                                assert(ks[b] == ks0[b]);
                            } else if a < ks0.len() {
                                assert(ks0.contains(ks[a]));
                            } else if b < ks0.len() {
                                assert(ks0.contains(ks[b]));
                            }
                        }
                    }
                    assert forall|key: Seq<char>| #[trigger]
                        self@.contains_key(key) implies self@[key] == old(self)@.insert(
                            kv,
                            v,
                        )[key] by {
                        let a = ks.index_of(key);
                        lemma_index_of_distinct(ks, a);
                        if a < ks0.len() {
                            assert(ks0[a] == key);
                            lemma_index_of_distinct(ks0, a);
                        }
                    }
                    assert forall|key: Seq<char>|
                        #[trigger] self@.contains_key(key) == old(self)@.insert(
                            kv,
                            v,
                        ).contains_key(key) by {
                        if ks.contains(key) && key != kv {
                            let a = choose|a: int| 0 <= a < ks.len() && ks[a] == key;
                            assert(a < ks0.len());
                            assert(ks0[a] == key);
                        }
                        if ks0.contains(key) {
                            let a = choose|a: int| 0 <= a < ks0.len() && ks0[a] == key;
                            assert(ks[a] == key);
                        }
                        if key == kv {
                            assert(ks[ks0.len() as int] == kv);
                        }
                    }
                    assert(self@ =~= old(self)@.insert(kv, v));
                }
            },
        }
    }
}

} // verus!

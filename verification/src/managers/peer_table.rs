//! A table keyed by peer id, holding one value per peer.
use vstd::prelude::*;

verus! {

/// One value per peer id, kept in the order the peers were first added.
/// No peer id occurs twice.
pub struct PeerTable<V> {
    entries: Vec<(String, V)>,
}

impl<T> View for PeerTable<T> {
    type V = Map<Seq<char>, T>;

    /// The value held for each peer id.
    closed spec fn view(&self) -> Map<Seq<char>, T> {
        Map::new(
            |k: Seq<char>| self.keys().contains(k),
            |k: Seq<char>| self.entries@[self.keys().index_of(k)].1,
        )
    }
}

impl<V> PeerTable<V> {
    /// The peer ids, in the order they were first added.
    pub closed spec fn keys(&self) -> Seq<Seq<char>> {
        self.entries@.map_values(|e: (String, V)| e.0@)
    }

    /// No peer id occurs twice.
    pub closed spec fn wf(&self) -> bool {
        self.keys().no_duplicates()
    }

    pub fn new() -> (r: Self)
        ensures
            r.wf(),
            r@ == Map::<Seq<char>, V>::empty(),
            r.keys() == Seq::<Seq<char>>::empty(),
    {
        let r = PeerTable { entries: Vec::new() };
        proof {
            assert(r.keys() =~= Seq::<Seq<char>>::empty());
            assert(r@ =~= Map::<Seq<char>, V>::empty());
        }
        r
    }

    /// The position of `key` among the entries.
    pub fn find(&self, key: &String) -> (r: Option<usize>)
        requires
            self.wf(),
        ensures
            match r {
                Some(i) => i < self.keys().len() && self.keys()[i as int] == key@,
                None => !self@.contains_key(key@),
            },
    {
        let mut i: usize = 0;
        while i < self.entries.len()
            invariant
                i <= self.entries@.len(),
                forall|j: int| 0 <= j < i ==> self.keys()[j] != key@,
            decreases self.entries@.len() - i,
        {
            if self.entries[i].0 == *key {
                return Some(i);
            }
            i = i + 1;
        }
        proof {
            if self.keys().contains(key@) {
                let j = choose|j: int| 0 <= j < self.keys().len() && self.keys()[j] == key@;
                assert(self.keys()[j] == key@);
            }
        }
        None
    }

    /// The value held for `key`, if any.
    pub fn get(&self, key: &String) -> (r: Option<&V>)
        requires
            self.wf(),
        ensures
            match r {
                Some(v) => self@.contains_key(key@) && *v == self@[key@],
                None => !self@.contains_key(key@),
            },
    {
        match self.find(key) {
            Some(i) => {
                proof {
                    self.lemma_index_of(i as int);
                }
                Some(&self.entries[i].1)
            },
            None => None,
        }
    }

    /// The value held at position `i` of the entries.
    pub fn value_at(&self, i: usize) -> (r: &V)
        requires
            self.wf(),
            i < self.keys().len(),
        ensures
            self@.contains_key(self.keys()[i as int]),
            *r == self@[self.keys()[i as int]],
    {
        proof {
            self.lemma_index_of(i as int);
        }
        &self.entries[i].1
    }

    /// Replaces the value held at position `i` of the entries.
    pub fn set_value_at(&mut self, i: usize, v: V)
        requires
            old(self).wf(),
            i < old(self).keys().len(),
        ensures
            final(self).wf(),
            final(self).keys() == old(self).keys(),
            final(self)@ == old(self)@.insert(old(self).keys()[i as int], v),
    {
        let ghost k = self.keys()[i as int];
        let ghost old_self = *self;
        let key = self.entries[i].0.clone();
        self.entries.set(i, (key, v));
        proof {
            assert(self.keys() =~= old_self.keys());
            old_self.lemma_index_of(i as int);
            assert forall|kk: Seq<char>| self@.contains_key(kk) implies self@[kk] == old_self@.insert(
                k,
                v,
            )[kk] by {
                let j = self.keys().index_of(kk);
                assert(self.keys().contains(kk));
                if kk != k {
                    assert(j != i);
                }
            }
            assert(self@ =~= old_self@.insert(k, v));
        }
    }

    /// Holds `v` for `key`, replacing what was held for it; a new key is
    /// added after the others.
    pub fn insert(&mut self, key: String, v: V)
        requires
            old(self).wf(),
        ensures
            final(self).wf(),
            final(self)@ == old(self)@.insert(key@, v),
            old(self)@.contains_key(key@) ==> final(self).keys() == old(self).keys(),
            !old(self)@.contains_key(key@) ==> final(self).keys() == old(self).keys().push(key@),
    {
        match self.find(&key) {
            Some(i) => {
                self.set_value_at(i, v);
                proof {
                    old(self).lemma_index_of(i as int);
                }
            },
            None => {
                let ghost old_self = *self;
                let ghost k = key@;
                self.entries.push((key, v));
                proof {
                    assert(self.keys() =~= old_self.keys().push(k));
                    assert(!old_self.keys().contains(k));
                    let nk = self.keys();
                    let ok = old_self.keys();
                    assert forall|a: int, b: int| 0 <= a < b < nk.len() implies nk[a] != nk[b] by {
                        if b == nk.len() - 1 {
                            assert(ok[a] == nk[a]);
                        } else {
                            assert(ok[a] == nk[a] && ok[b] == nk[b]);
                        }
                    }
                    assert(nk.no_duplicates());
                    assert forall|kk: Seq<char>| nk.contains(kk) <==> (ok.contains(kk) || kk == k) by {
                        if nk.contains(kk) && kk != k {
                            let j = choose|j: int| 0 <= j < nk.len() && nk[j] == kk;
                            assert(ok[j] == kk);
                        }
                        if ok.contains(kk) {
                            let j = choose|j: int| 0 <= j < ok.len() && ok[j] == kk;
                            assert(nk[j] == kk);
                        }
                        if kk == k {
                            assert(nk[nk.len() - 1] == k);
                        }
                    }
                    assert forall|kk: Seq<char>| self@.contains_key(kk) implies self@[kk]
                        == old_self@.insert(k, v)[kk] by {
                        let j = nk.index_of(kk);
                        assert(nk[j] == kk);
                        if kk != k {
                            assert(j < ok.len());
                            let j2 = ok.index_of(kk);
                            assert(ok[j] == kk);
                            assert(ok[j2] == kk);
                            assert(j2 == j);
                        } else {
                            assert(nk[nk.len() - 1] == k);
                            assert(j == nk.len() - 1);
                        }
                    }
                    assert(self@ =~= old_self@.insert(k, v));
                }
            },
        }
    }

    /// Holds `v` at position `i` of the entries and hands back what was held there.
    pub fn replace_value_at(&mut self, i: usize, v: V) -> (r: V)
        requires
            old(self).wf(),
            i < old(self).keys().len(),
        ensures
            final(self).wf(),
            final(self).keys() == old(self).keys(),
            final(self)@ == old(self)@.insert(old(self).keys()[i as int], v),
            r == old(self)@[old(self).keys()[i as int]],
    {
        proof {
            self.lemma_index_of(i as int);
        }
        let ghost old_self = *self;
        let (key, old_v) = self.entries.remove(i);
        let ghost k = key@;
        self.entries.insert(i, (key, v));
        proof {
            assert(self.entries@ =~= old_self.entries@.update(i as int, (self.entries@[i as int].0, v)));
            assert(self.keys() =~= old_self.keys());
            assert forall|kk: Seq<char>| self@.contains_key(kk) implies self@[kk] == old_self@.insert(
                k,
                v,
            )[kk] by {
                let j = self.keys().index_of(kk);
                assert(self.keys().contains(kk));
                if kk != k {
                    assert(j != i);
                }
            }
            assert(self@ =~= old_self@.insert(k, v));
        }
        old_v
    }

    /// The peer ids, in the order they were first added.
    pub fn key_list(&self) -> (r: Vec<String>)
        requires
            self.wf(),
        ensures
            r@.map_values(|s: String| s@) == self.keys(),
    {
        let mut r: Vec<String> = Vec::new();
        let mut i: usize = 0;
        while i < self.entries.len()
            invariant
                i <= self.entries@.len(),
                r@.len() == i,
                forall|j: int| 0 <= j < i ==> #[trigger] r@[j]@ == self.keys()[j],
            decreases self.entries@.len() - i,
        {
            let c = self.entries[i].0.clone();
            proof {
                assert(self.keys()[i as int] == self.entries@[i as int].0@);
            }
            r.push(c);
            i = i + 1;
        }
        proof {
            assert(r@.map_values(|s: String| s@) =~= self.keys());
        }
        r
    }

    /// The number of peers.
    pub fn len(&self) -> (r: usize)
        ensures
            r == self.keys().len(),
    {
        self.entries.len()
    }

    /// The table holds a value exactly for the listed keys, which are distinct.
    pub proof fn lemma_keys(&self)
        requires
            self.wf(),
        ensures
            self.keys().no_duplicates(),
            forall|k: Seq<char>| #[trigger] self@.contains_key(k) <==> self.keys().contains(k),
    {
    }

    /// Position `i` holds the value that the table holds for its key.
    proof fn lemma_index_of(&self, i: int)
        requires
            self.wf(),
            0 <= i < self.keys().len(),
        ensures
            self.keys().index_of(self.keys()[i]) == i,
            self@.contains_key(self.keys()[i]),
            self@[self.keys()[i]] == self.entries@[i].1,
    {
        let k = self.keys()[i];
        assert(self.keys().contains(k));
    }
}

} // verus!

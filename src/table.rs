use vstd::prelude::*;
use crate::text::str_eq;

verus! {

/// A finite map from string keys to values, kept as a list of entries whose
/// keys are pairwise distinct.
pub struct Table<V> {
    entries: Vec<(String, V)>,
}

impl<V: View> Table<V> {
    /// Number of entries.
    pub closed spec fn size(&self) -> nat {
        self.entries@.len()
    }

    /// Key of the entry at position `i`.
    pub closed spec fn key_at(&self, i: int) -> Seq<char> {
        self.entries@[i].0@
    }

    /// Value of the entry at position `i`.
    pub closed spec fn val_at(&self, i: int) -> V {
        self.entries@[i].1
    }

    /// Every value satisfies `p`.
    pub open spec fn all(&self, p: spec_fn(V) -> bool) -> bool {
        forall|i: int| 0 <= i < self.size() ==> p(#[trigger] self.val_at(i))
    }

    /// No key occurs twice.
    pub closed spec fn wf(&self) -> bool {
        forall|i: int, j: int|
            0 <= i < self.size() && 0 <= j < self.size() && i != j ==> self.key_at(i)
                != self.key_at(j)
    }

    pub closed spec fn has_key(&self, k: Seq<char>) -> bool {
        exists|i: int| 0 <= i < self.size() && self.key_at(i) == k
    }

    pub closed spec fn index_of(&self, k: Seq<char>) -> int {
        choose|i: int| 0 <= i < self.size() && self.key_at(i) == k
    }

    /// The map from each key to the view of its value.
    pub closed spec fn view(&self) -> Map<Seq<char>, V::V> {
        Map::new(|k: Seq<char>| self.has_key(k), |k: Seq<char>| self.val_at(self.index_of(k))@)
    }

    /// Ties positions to the map view.
    pub proof fn lemma_view(&self)
        requires
            self.wf(),
        ensures
            forall|i: int|
                #![trigger self.key_at(i)]
                0 <= i < self.size() ==> self@.contains_key(self.key_at(i)) && self@[self.key_at(
                    i,
                )] == self.val_at(i)@ && self.index_of(self.key_at(i)) == i,
            forall|k: Seq<char>|
                #![trigger self@.contains_key(k)]
                self@.contains_key(k) ==> 0 <= self.index_of(k) < self.size() && self.key_at(
                    self.index_of(k),
                ) == k && self@[k] == self.val_at(self.index_of(k))@,
    {
        assert forall|i: int| #![trigger self.key_at(i)] 0 <= i < self.size() implies self@.contains_key(
            self.key_at(i),
        ) && self@[self.key_at(i)] == self.val_at(i)@ && self.index_of(self.key_at(i)) == i by {
            assert(self.has_key(self.key_at(i)));
        }
    }

    pub fn new() -> (t: Self)
        ensures
            t.wf(),
            t@ == Map::<Seq<char>, V::V>::empty(),
            t.size() == 0,
    {
        let t = Table { entries: Vec::new() };
        assert(t@ =~= Map::<Seq<char>, V::V>::empty());
        t
    }

    pub fn len(&self) -> (r: usize)
        ensures
            r == self.size(),
    {
        self.entries.len()
    }

    pub fn key(&self, i: usize) -> (r: &String)
        requires
            i < self.size(),
        ensures
            r@ == self.key_at(i as int),
    {
        &self.entries[i].0
    }

    pub fn value(&self, i: usize) -> (r: &V)
        requires
            i < self.size(),
        ensures
            *r == self.val_at(i as int),
    {
        &self.entries[i].1
    }

    /// Position of the entry with key `k`, if any.
    pub fn find(&self, k: &str) -> (r: Option<usize>)
        requires
            self.wf(),
        ensures
            r.is_none() <==> !self@.contains_key(k@),
            r matches Some(i) ==> i < self.size() && self.key_at(i as int) == k@ && self.index_of(
                k@,
            ) == i,
    {
        proof {
            self.lemma_view();
        }
        let mut i: usize = 0;
        while i < self.entries.len()
            invariant
                self.wf(),
                i <= self.size(),
                forall|j: int| 0 <= j < i ==> self.key_at(j) != k@,
            decreases self.size() - i,
        {
            if str_eq(self.entries[i].0.as_str(), k) {
                assert(self.key_at(i as int) == k@);
                return Some(i);
            }
            i = i + 1;
        }
        None
    }

    pub fn contains_key(&self, k: &str) -> (r: bool)
        requires
            self.wf(),
        ensures
            r == self@.contains_key(k@),
    {
        self.find(k).is_some()
    }

    pub fn get(&self, k: &str) -> (r: Option<&V>)
        requires
            self.wf(),
        ensures
            r.is_some() == self@.contains_key(k@),
            r matches Some(v) ==> v@ == self@[k@],
            r matches Some(v) ==> forall|p: spec_fn(V) -> bool| #[trigger] self.all(p) ==> p(*v),
    {
        match self.find(k) {
            Some(i) => {
                proof {
                    self.lemma_view();
                }
                Some(&self.entries[i].1)
            },
            None => None,
        }
    }

    /// Sets the value under `k`, replacing any previous one.
    pub fn insert(&mut self, k: String, v: V)
        requires
            old(self).wf(),
        ensures
            final(self).wf(),
            final(self)@ == old(self)@.insert(k@, v@),
            forall|p: spec_fn(V) -> bool| old(self).all(p) && p(v) ==> #[trigger] final(self).all(p),
    {
        proof {
            self.lemma_view();
        }
        match self.find(k.as_str()) {
            Some(i) => {
                self.entries.set(i, (k, v));
                assert(forall|j: int| 0 <= j < self.size() ==> self.key_at(j) == old(self).key_at(j));
                assert(forall|j: int| 0 <= j < self.size() && j != i ==> self.val_at(j) == old(self).val_at(j));
            },
            None => {
                self.entries.push((k, v));
                assert(forall|j: int| 0 <= j < old(self).size() ==> self.key_at(j) == old(self).key_at(j));
                assert(self.key_at(old(self).size() as int) == k@);
                assert(forall|j: int| 0 <= j < old(self).size() ==> old(self).key_at(j) != k@);
                assert(forall|j: int| 0 <= j < old(self).size() ==> self.val_at(j) == old(self).val_at(j));
            },
        }
        proof {
            self.lemma_view();
            assert(self@ =~= old(self)@.insert(k@, v@)) by {
                assert forall|q: Seq<char>| #[trigger]
                    self@.contains_key(q) implies old(self)@.insert(k@, v@).contains_key(q) by {
                    let j = self.index_of(q);
                    if q != k@ {
                        assert(old(self).key_at(j) == q);
                    }
                }
                assert forall|q: Seq<char>| #[trigger]
                    old(self)@.insert(k@, v@).contains_key(q) implies self@.contains_key(q)
                    && self@[q] == old(self)@.insert(k@, v@)[q] by {
                    if q != k@ {
                        let j = old(self).index_of(q);
                        assert(self.key_at(j) == q);
                    } else {
                        let j = choose|j: int| 0 <= j < self.size() && self.key_at(j) == k@;
                        assert(self.key_at(j) == k@);
                    }
                }
            }
        }
    }

    /// Removes the entry under `k` and hands back its value, if there was one.
    pub fn remove(&mut self, k: &str) -> (r: Option<V>)
        requires
            old(self).wf(),
        ensures
            final(self).wf(),
            final(self)@ == old(self)@.remove(k@),
            forall|p: spec_fn(V) -> bool| old(self).all(p) ==> #[trigger] final(self).all(p),
            r.is_some() == old(self)@.contains_key(k@),
            r matches Some(v) ==> v@ == old(self)@[k@],
            r matches Some(v) ==> forall|p: spec_fn(V) -> bool| #[trigger] old(self).all(p) ==> p(v),
    {
        proof {
            self.lemma_view();
        }
        match self.find(k) {
            Some(i) => {
                let (_, v) = self.entries.remove(i);
                assert(v == old(self).val_at(i as int));
                proof {
                    assert forall|j: int| 0 <= j < self.size() implies #[trigger] self.key_at(j)
                        == old(self).key_at(if j < i { j } else { j + 1 }) by {}
                    self.lemma_view();
                    old(self).lemma_view();
                    assert forall|q: Seq<char>| #[trigger]
                        self@.contains_key(q) implies old(self)@.remove(k@).contains_key(q)
                        && self@[q] == old(self)@[q] by {
                        let j = self.index_of(q);
                        let oj = if j < i { j } else { j + 1 };
                        assert(old(self).key_at(oj) == q);
                    }
                    assert forall|q: Seq<char>| #[trigger]
                        old(self)@.remove(k@).contains_key(q) implies self@.contains_key(q) by {
                        let oj = old(self).index_of(q);
                        let j = if oj < i { oj } else { oj - 1 };
                        assert(self.key_at(j) == q);
                    }
                    assert(self@ =~= old(self)@.remove(k@));
                    assert forall|p: spec_fn(V) -> bool| old(self).all(p) implies #[trigger] self.all(p) by {
                        assert forall|j: int| 0 <= j < self.size() implies p(#[trigger] self.val_at(j)) by {
                            let oj = if j < i { j } else { j + 1 };
                            assert(self.val_at(j) == old(self).val_at(oj));
                        }
                    }
                }
                Some(v)
            },
            None => {
                assert(self@ =~= old(self)@.remove(k@));
                None
            },
        }
    }

    /// Mutable access to the value at position `i`; the key stays.
    pub fn value_mut(&mut self, i: usize) -> (r: &mut V)
        requires
            old(self).wf(),
            i < old(self).size(),
        ensures
            *r == old(self).val_at(i as int),
            final(self).size() == old(self).size(),
            forall|j: int| 0 <= j < old(self).size() ==> #[trigger] final(self).key_at(j) == old(self).key_at(j),
            forall|j: int| 0 <= j < old(self).size() && j != i ==> #[trigger] final(self).val_at(j) == old(self).val_at(j),
            final(self).val_at(i as int) == *final(r),
    {
        &mut self.entries[i].1
    }

    /// A table that differs from `old` only in the value at position `i`
    /// keeps its keys distinct and maps that key to the new value.
    pub proof fn lemma_update(old: &Self, new: &Self, i: int)
        requires
            old.wf(),
            0 <= i < old.size(),
            new.size() == old.size(),
            forall|j: int| 0 <= j < old.size() ==> #[trigger] new.key_at(j) == old.key_at(j),
            forall|j: int| 0 <= j < old.size() && j != i ==> #[trigger] new.val_at(j) == old.val_at(j),
        ensures
            new.wf(),
            new@ == old@.insert(old.key_at(i), new.val_at(i)@),
    {
        assert(new.wf());
        old.lemma_view();
        new.lemma_view();
        assert forall|q: Seq<char>| #[trigger] new@.contains_key(q) implies old@.insert(old.key_at(i), new.val_at(i)@).contains_key(q)
            && new@[q] == old@.insert(old.key_at(i), new.val_at(i)@)[q] by {
            let j = new.index_of(q);
            assert(old.key_at(j) == q);
        }
        assert forall|q: Seq<char>| #[trigger] old@.insert(old.key_at(i), new.val_at(i)@).contains_key(q) implies new@.contains_key(q) by {
            if q != old.key_at(i) {
                let j = old.index_of(q);
                assert(new.key_at(j) == q);
            } else {
                assert(new.key_at(i) == q);
            }
        }
        assert(new@ =~= old@.insert(old.key_at(i), new.val_at(i)@));
    }

    /// A table with the same keys whose values are `f` of the old ones has
    /// the mapped view.
    pub proof fn lemma_map_values<W: View>(old: &Self, new: &Table<W>, f: spec_fn(V::V) -> W::V)
        requires
            old.wf(),
            new.size() == old.size(),
            forall|j: int| 0 <= j < old.size() ==> #[trigger] new.key_at(j) == old.key_at(j),
            forall|j: int| 0 <= j < old.size() ==> #[trigger] new.val_at(j)@ == f(old.val_at(j)@),
        ensures
            new.wf(),
            new@ == old@.map_values(f),
    {
        assert(new.wf());
        old.lemma_view();
        new.lemma_view();
        assert forall|q: Seq<char>| #[trigger] new@.contains_key(q) implies old@.contains_key(q) && new@[q] == f(old@[q]) by {
            let j = new.index_of(q);
            assert(old.key_at(j) == q);
        }
        assert forall|q: Seq<char>| #[trigger] old@.contains_key(q) implies new@.contains_key(q) by {
            let j = old.index_of(q);
            assert(new.key_at(j) == q);
        }
        assert(new@ =~= old@.map_values(f));
    }

    /// The number of entries is the number of keys.
    pub proof fn lemma_size(&self)
        requires
            self.wf(),
        ensures
            self@.dom().finite(),
            self@.dom().len() == self.size(),
            self@.is_empty() <==> self.size() == 0,
    {
        self.lemma_view();
        let keys = Seq::new(self.size(), |i: int| self.key_at(i));
        assert(keys.no_duplicates());
        assert(keys.to_set() =~= self@.dom()) by {
            assert forall|k: Seq<char>| self@.dom().contains(k) implies keys.to_set().contains(k) by {
                let j = self.index_of(k);
                assert(keys[j] == k);
            }
        }
        keys.unique_seq_to_set();
        if self.size() > 0 {
            assert(self@.dom().contains(self.key_at(0)));
        } else {
            assert(self@ =~= Map::empty());
        }
    }
}

} // verus!

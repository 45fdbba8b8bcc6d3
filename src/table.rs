//! A finite map keyed by byte strings, held as parallel vectors of keys and values.
use crate::digest::bytes_equal;
use vstd::prelude::*;

verus! {

/// A map from byte strings to values, each key present at most once.
pub struct ByteTable<V> {
    pub keys: Vec<Vec<u8>>,
    pub values: Vec<V>,
}

impl<V> ByteTable<V> {
    /// The table's invariant: one value per key, no key twice.
    pub open spec fn wf(&self) -> bool {
        &&& self.keys@.len() == self.values@.len()
        &&& forall|i: int, j: int|
            0 <= i < self.keys@.len() && 0 <= j < self.keys@.len() && i != j ==> #[trigger] self.keys@[i]@
                != #[trigger] self.keys@[j]@
    }

    /// Whether `k` is a key of the table.
    pub open spec fn has_key(&self, k: Seq<u8>) -> bool {
        exists|i: int| 0 <= i < self.keys@.len() && #[trigger] self.keys@[i]@ == k
    }

    /// The position of key `k`.
    pub open spec fn index_of(&self, k: Seq<u8>) -> int {
        choose|i: int| 0 <= i < self.keys@.len() && #[trigger] self.keys@[i]@ == k
    }

    /// The table as a map.
    pub open spec fn view(&self) -> Map<Seq<u8>, V> {
        Map::new(|k: Seq<u8>| self.has_key(k), |k: Seq<u8>| self.values@[self.index_of(k)])
    }

    /// In a well-formed table, the key at position `i` maps to the value at position `i`.
    pub proof fn lemma_index(&self, i: int)
        requires
            self.wf(),
            0 <= i < self.keys@.len(),
        ensures
            self.has_key(self.keys@[i]@),
            self.index_of(self.keys@[i]@) == i,
            self@.contains_key(self.keys@[i]@),
            self@[self.keys@[i]@] == self.values@[i],
    {
        assert(self.has_key(self.keys@[i]@));
        let j = self.index_of(self.keys@[i]@);
        assert(self.keys@[j]@ == self.keys@[i]@);
    }

    /// An empty table.
    pub fn new() -> (r: ByteTable<V>)
        ensures
            r.wf(),
            r@ == Map::<Seq<u8>, V>::empty(),
            r.values@.len() == 0,
    {
        let r = ByteTable { keys: Vec::new(), values: Vec::new() };
        assert(r@ =~= Map::<Seq<u8>, V>::empty());
        r
    }

    /// Position of `key`, if present.
    pub fn find(&self, key: &[u8]) -> (r: Option<usize>)
        requires
            self.wf(),
        ensures
            match r {
                Some(i) => i < self.keys@.len() && self.keys@[i as int]@ == key@,
                None => !self.has_key(key@),
            },
    {
        let mut i: usize = 0;
        while i < self.keys.len()
            invariant
                0 <= i <= self.keys@.len(),
                forall|j: int| 0 <= j < i ==> self.keys@[j]@ != key@,
            decreases self.keys@.len() - i,
        {
            if bytes_equal(self.keys[i].as_slice(), key) {
                return Some(i);
            }
            i = i + 1;
        }
        None
    }

    /// The value stored under `key`.
    pub fn get(&self, key: &[u8]) -> (r: Option<&V>)
        requires
            self.wf(),
        ensures
            match r {
                Some(v) => self@.contains_key(key@) && *v == self@[key@],
                None => !self@.contains_key(key@),
            },
    {
        match self.find(key) {
            Some(i) => {
                proof {
                    self.lemma_index(i as int);
                }
                Some(&self.values[i])
            },
            None => None,
        }
    }

    /// Stores `value` under `key`, replacing what was there.
    pub fn insert(&mut self, key: &[u8], value: V)
        requires
            old(self).wf(),
        ensures
            final(self).wf(),
            final(self)@ == old(self)@.insert(key@, value),
            old(self)@.contains_key(key@) ==> final(self).values@.len() == old(self).values@.len(),
            !old(self)@.contains_key(key@) ==> final(self).values@ == old(self).values@.push(value),
    {
        let ghost old_t = *self;
        match self.find(key) {
            Some(i) => {
                self.values.set(i, value);
                proof {
                    assert forall|k: Seq<u8>| #[trigger] self.has_key(k) == old_t.has_key(k) by {
                        if old_t.has_key(k) {
                            let j = old_t.index_of(k);
                            assert(self.keys@[j]@ == k);
                        }
                    }
                    assert forall|k: Seq<u8>| self.has_key(k) implies #[trigger] self.values@[self.index_of(k)]
                        == old_t@.insert(key@, value)[k] by {
                        let j = self.index_of(k);
                        if k == key@ {
                            assert(j == i);
                        } else {
                            old_t.lemma_index(j);
                        }
                    }
                    assert(self@ =~= old_t@.insert(key@, value));
                }
            },
            None => {
                self.keys.push(slice_to_vec(key));
                self.values.push(value);
                proof {
                    let n = old_t.keys@.len();
                    assert(self.keys@[n as int]@ == key@);
                    assert forall|k: Seq<u8>| #[trigger] self.has_key(k) == (old_t.has_key(k) || k
                        == key@) by {
                        if old_t.has_key(k) {
                            let j = old_t.index_of(k);
                            assert(self.keys@[j]@ == k);
                        }
                        if self.has_key(k) && k != key@ {
                            let j = self.index_of(k);
                            assert(old_t.keys@[j]@ == k);
                        }
                    }
                    assert forall|k: Seq<u8>| self.has_key(k) implies #[trigger] self.values@[self.index_of(k)]
                        == old_t@.insert(key@, value)[k] by {
                        let j = self.index_of(k);
                        self.lemma_index(j);
                        if k != key@ {
                            old_t.lemma_index(j);
                        } else {
                            self.lemma_index(n as int);
                        }
                    }
                    assert(self@ =~= old_t@.insert(key@, value));
                }
            },
        }
    }

    /// Removes `key` and its value, if present.
    pub fn remove(&mut self, key: &[u8])
        requires
            old(self).wf(),
        ensures
            final(self).wf(),
            final(self)@ == old(self)@.remove(key@),
    {
        let ghost old_t = *self;
        match self.find(key) {
            None => {
                assert(self@ =~= old_t@.remove(key@));
            },
            Some(i) => {
                let last = self.keys.len() - 1;
                self.keys.swap_remove(i);
                self.values.swap_remove(i);
                proof {
                    // position `p` of the new table holds what position `src(p)` held
                    let src = |p: int| if p == i { last as int } else { p };
                    assert forall|p: int| 0 <= p < self.keys@.len() implies #[trigger] self.keys@[p]
                        == old_t.keys@[src(p)] && self.values@[p] == old_t.values@[src(p)] by {}
                    assert forall|p: int, q: int|
                        0 <= p < self.keys@.len() && 0 <= q < self.keys@.len() && p != q implies #[trigger] self.keys@[p]@
                        != #[trigger] self.keys@[q]@ by {
                        assert(old_t.keys@[src(p)]@ != old_t.keys@[src(q)]@);
                    }
                    assert forall|k: Seq<u8>| #[trigger] self.has_key(k) == (old_t.has_key(k) && k
                        != key@) by {
                        if self.has_key(k) {
                            let p = self.index_of(k);
                            assert(old_t.keys@[src(p)]@ == k);
                            if k == key@ {
                                assert(old_t.keys@[src(p)]@ == old_t.keys@[i as int]@);
                            }
                        }
                        if old_t.has_key(k) && k != key@ {
                            let p = old_t.index_of(k);
                            if p == last {
                                assert(self.keys@[i as int]@ == k);
                            } else {
                                assert(self.keys@[p]@ == k);
                            }
                        }
                    }
                    assert forall|k: Seq<u8>| self.has_key(k) implies #[trigger] self.values@[self.index_of(k)]
                        == old_t@.remove(key@)[k] by {
                        let p = self.index_of(k);
                        self.lemma_index(p);
                        old_t.lemma_index(src(p));
                    }
                    assert(self@ =~= old_t@.remove(key@));
                }
            },
        }
    }
}

/// A copy of a byte slice.
pub fn slice_to_vec(s: &[u8]) -> (r: Vec<u8>)
    ensures
        r@ == s@,
{
    let mut r: Vec<u8> = Vec::new();
    let mut i: usize = 0;
    while i < s.len()
        invariant
            0 <= i <= s@.len(),
            r@ == s@.subrange(0, i as int),
        decreases s@.len() - i,
    {
        r.push(s[i]);
        i = i + 1;
        assert(r@ =~= s@.subrange(0, i as int));
    }
    assert(s@.subrange(0, s@.len() as int) =~= s@);
    r
}

} // verus!

//! Tallies of items by id: how many of each item were picked up.

use vstd::prelude::*;

verus! {

/// No key occurs twice.
pub open spec fn unique_keys(ps: Seq<(Seq<char>, u32)>) -> bool {
    forall|i: int, j: int| 0 <= i < j < ps.len() ==> (#[trigger] ps[i].0) != (#[trigger] ps[j].0)
}

/// The pairs as a map from key to count.
pub open spec fn pairs_map(ps: Seq<(Seq<char>, u32)>) -> Map<Seq<char>, u32> {
    Map::new(
        |k: Seq<char>| exists|i: int| 0 <= i < ps.len() && (#[trigger] ps[i].0) == k,
        |k: Seq<char>| ps[choose|i: int| 0 <= i < ps.len() && (#[trigger] ps[i].0) == k].1,
    )
}

/// With unique keys, the map holds each pair's count at its key.
pub proof fn lemma_pairs_map_at(ps: Seq<(Seq<char>, u32)>, i: int)
    requires
        unique_keys(ps),
        0 <= i < ps.len(),
    ensures
        pairs_map(ps).dom().contains(ps[i].0),
        pairs_map(ps)[ps[i].0] == ps[i].1,
{
    let j = choose|j: int| 0 <= j < ps.len() && (#[trigger] ps[j].0) == ps[i].0;
    assert(0 <= j < ps.len() && ps[j].0 == ps[i].0);
    if j < i {
        assert(ps[j].0 != ps[i].0);
    } else if j > i {
        assert(ps[i].0 != ps[j].0);
    }
}

/// The count held for `k`: 0 when `k` has none.
pub open spec fn count_of(m: Map<Seq<char>, u32>, k: Seq<char>) -> int {
    if m.dom().contains(k) {
        m[k] as int
    } else {
        0
    }
}

/// Counts of items by id.
pub struct DropCounts {
    entries: Vec<(String, u32)>,
}

impl DropCounts {
    /// The key and count pairs, in the order they were first added.
    pub closed spec fn pairs(&self) -> Seq<(Seq<char>, u32)> {
        self.entries@.map_values(|e: (String, u32)| (e.0@, e.1))
    }

    #[verifier::type_invariant]
    closed spec fn inv(self) -> bool {
        unique_keys(self.pairs())
    }
}

impl View for DropCounts {
    type V = Map<Seq<char>, u32>;

    closed spec fn view(&self) -> Map<Seq<char>, u32> {
        pairs_map(self.pairs())
    }
}

impl DropCounts {
    /// No counts.
    pub fn new() -> (r: DropCounts)
        ensures
            r@ == Map::<Seq<char>, u32>::empty(),
    {
        let r = DropCounts { entries: Vec::new() };
        assert(r@ =~= Map::<Seq<char>, u32>::empty());
        r
    }

    /// The index of `key`, if it has a count.
    fn index_of(&self, key: &String) -> (r: Option<usize>)
        ensures
            r is None <==> !self@.dom().contains(key@),
            r matches Some(i) ==> i < self.pairs().len() && self.pairs()[i as int].0 == key@
                && self@[key@] == self.pairs()[i as int].1,
    {
        proof {
            use_type_invariant(self);
        }
        let n = self.entries.len();
        for i in 0..n
            invariant
                n == self.entries.len(),
                unique_keys(self.pairs()),
                forall|j: int| 0 <= j < i ==> self.pairs()[j].0 != key@,
        {
            if self.entries[i].0 == *key {
                assert(self.pairs()[i as int].0 == key@);
                proof {
                    lemma_pairs_map_at(self.pairs(), i as int);
                }
                return Some(i);
            }
        }
        None
    }

    /// The count for `key` (0 when it has none).
    pub fn get(&self, key: &String) -> (r: u32)
        ensures
            r == count_of(self@, key@),
    {
        match self.index_of(key) {
            Some(i) => self.entries[i].1,
            None => 0,
        }
    }

    /// The number of keys that have a count.
    pub fn len(&self) -> (r: usize)
        ensures
            r == self@.dom().len(),
    {
        proof {
            use_type_invariant(self);
            self.lemma_dom_len();
        }
        self.entries.len()
    }

    proof fn lemma_dom_len(&self)
        requires
            unique_keys(self.pairs()),
        ensures
            self@.dom().len() == self.pairs().len(),
            self@.dom().finite(),
    {
        let ps = self.pairs();
        let keys = ps.map_values(|e: (Seq<char>, u32)| e.0);
        assert(keys.no_duplicates()) by {
            assert forall|i: int, j: int| 0 <= i < keys.len() && 0 <= j < keys.len() && i != j implies keys[i] != keys[j] by {
                if i < j {
                    assert(ps[i].0 != ps[j].0);
                } else {
                    assert(ps[j].0 != ps[i].0);
                }
            }
        }
        keys.unique_seq_to_set();
        assert(keys.to_set() =~= self@.dom()) by {
            assert forall|k: Seq<char>| keys.to_set().contains(k) <==> self@.dom().contains(k) by {
                if keys.to_set().contains(k) {
                    let i = choose|i: int| 0 <= i < keys.len() && keys[i] == k;
                    assert(ps[i].0 == k);
                }
                if self@.dom().contains(k) {
                    let i = choose|i: int| 0 <= i < ps.len() && (#[trigger] ps[i].0) == k;
                    assert(keys[i] == k);
                }
            }
        }
    }

    /// The key and count pairs, each key once.
    pub fn pairs_vec(&self) -> (r: &Vec<(String, u32)>)
        ensures
            forall|i: int| 0 <= i < r@.len() ==> self@.dom().contains(#[trigger] r@[i].0@) && self@[r@[i].0@] == r@[i].1,
            forall|k: Seq<char>| #[trigger] self@.dom().contains(k) ==> exists|i: int| 0 <= i < r@.len() && (#[trigger] r@[i].0@) == k,
            forall|i: int, j: int| 0 <= i < j < r@.len() ==> (#[trigger] r@[i].0@) != (#[trigger] r@[j].0@),
    {
        proof {
            use_type_invariant(self);
            let ps = self.pairs();
            assert forall|i: int| 0 <= i < self.entries@.len() implies self@.dom().contains(#[trigger] self.entries@[i].0@) && self@[self.entries@[i].0@] == self.entries@[i].1 by {
                assert(ps[i].0 == self.entries@[i].0@);
                lemma_pairs_map_at(ps, i);
            }
            assert forall|k: Seq<char>| #[trigger] self@.dom().contains(k) implies exists|i: int| 0 <= i < self.entries@.len() && (#[trigger] self.entries@[i].0@) == k by {
                let i = choose|i: int| 0 <= i < ps.len() && (#[trigger] ps[i].0) == k;
                assert(self.entries@[i].0@ == k);
            }
            assert forall|i: int, j: int| 0 <= i < j < self.entries@.len() implies (#[trigger] self.entries@[i].0@) != (#[trigger] self.entries@[j].0@) by {
                assert(ps[i].0 != ps[j].0);
            }
        }
        &self.entries
    }

    /// Sets the count for `key` to `n`.
    pub fn set(&mut self, key: String, n: u32)
        ensures
            final(self)@ == old(self)@.insert(key@, n),
    {
        proof {
            use_type_invariant(&*self);
        }
        let ghost old_pairs = self.pairs();
        let ghost old_view = self@;
        let idx = self.index_of(&key);
        let mut es: Vec<(String, u32)> = Vec::new();
        std::mem::swap(&mut es, &mut self.entries);
        let ghost k = key@;
        match idx {
            Some(i) => {
                es.set(i, (key, n));
                let ghost ps = es@.map_values(|e: (String, u32)| (e.0@, e.1));
                assert(ps =~= old_pairs.update(i as int, (k, n)));
                assert(unique_keys(ps)) by {
                    assert forall|a: int, b: int| 0 <= a < b < ps.len() implies (#[trigger] ps[a].0) != (#[trigger] ps[b].0) by {
                        assert(old_pairs[a].0 != old_pairs[b].0);
                    }
                }
                assert forall|q: Seq<char>| #[trigger] old_view.insert(k, n).dom().contains(q) implies pairs_map(ps).dom().contains(q) && pairs_map(ps)[q] == old_view.insert(k, n)[q] by {
                    if q == k {
                        lemma_pairs_map_at(ps, i as int);
                    } else {
                        let j = choose|j: int| 0 <= j < old_pairs.len() && (#[trigger] old_pairs[j].0) == q;
                        lemma_pairs_map_at(old_pairs, j);
                        lemma_pairs_map_at(ps, j);
                    }
                }
                assert forall|q: Seq<char>| #[trigger] pairs_map(ps).dom().contains(q) implies old_view.insert(k, n).dom().contains(q) by {
                    let j = choose|j: int| 0 <= j < ps.len() && (#[trigger] ps[j].0) == q;
                    if j != i {
                        assert(old_pairs[j].0 == q);
                    }
                }
                assert(pairs_map(ps) =~= old_view.insert(k, n));
                self.entries = es;
            },
            None => {
                es.push((key, n));
                let ghost ps = es@.map_values(|e: (String, u32)| (e.0@, e.1));
                assert(ps =~= old_pairs.push((k, n)));
                assert(unique_keys(ps)) by {
                    assert forall|a: int, b: int| 0 <= a < b < ps.len() implies (#[trigger] ps[a].0) != (#[trigger] ps[b].0) by {
                        if b == old_pairs.len() {
                            assert(old_view.dom().contains(ps[a].0));
                        } else {
                            assert(old_pairs[a].0 != old_pairs[b].0);
                        }
                    }
                }
                assert forall|q: Seq<char>| #[trigger] old_view.insert(k, n).dom().contains(q) implies pairs_map(ps).dom().contains(q) && pairs_map(ps)[q] == old_view.insert(k, n)[q] by {
                    if q == k {
                        lemma_pairs_map_at(ps, old_pairs.len() as int);
                    } else {
                        let j = choose|j: int| 0 <= j < old_pairs.len() && (#[trigger] old_pairs[j].0) == q;
                        lemma_pairs_map_at(old_pairs, j);
                        lemma_pairs_map_at(ps, j);
                    }
                }
                assert forall|q: Seq<char>| #[trigger] pairs_map(ps).dom().contains(q) implies old_view.insert(k, n).dom().contains(q) by {
                    let j = choose|j: int| 0 <= j < ps.len() && (#[trigger] ps[j].0) == q;
                    if j < old_pairs.len() {
                        assert(old_pairs[j].0 == q);
                    }
                }
                assert(pairs_map(ps) =~= old_view.insert(k, n));
                self.entries = es;
            },
        }
    }

    /// Adds `n` to the count for `key`.
    pub fn add(&mut self, key: &String, n: u32)
        requires
            count_of(old(self)@, key@) + n <= u32::MAX,
        ensures
            final(self)@ == old(self)@.insert(key@, (count_of(old(self)@, key@) + n) as u32),
    {
        let c = self.get(key);
        self.set(key.clone(), c + n);
    }

    /// Adds `n` to the count for `key` when the sum fits in a `u32`; says whether it did.
    pub fn try_add(&mut self, key: &String, n: u32) -> (r: bool)
        ensures
            r == (count_of(old(self)@, key@) + n <= u32::MAX),
            r ==> final(self)@ == old(self)@.insert(key@, (count_of(old(self)@, key@) + n) as u32),
            !r ==> final(self)@ == old(self)@,
    {
        let c = self.get(key);
        if c <= u32::MAX - n {
            self.set(key.clone(), c + n);
            true
        } else {
            false
        }
    }
}

} // verus!

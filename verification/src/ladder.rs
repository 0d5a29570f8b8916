//! One side of the book: a finite map from price tick to the aggregate
//! quantity (in whole lots) resting at that tick. A tick with no liquidity is
//! absent; every stored level is positive.

use vstd::prelude::*;

verus! {

/// True when some entry of `s` carries the key `k`.
pub(crate) open spec fn has_key(s: Seq<(i64, u64)>, k: i64) -> bool {
    exists|i: int| 0 <= i < s.len() && s[i].0 == k
}

/// An index of the entry of `s` carrying the key `k`.
pub(crate) open spec fn index_of(s: Seq<(i64, u64)>, k: i64) -> int {
    choose|i: int| 0 <= i < s.len() && s[i].0 == k
}

/// Tick-to-lots map, stored as a vector of entries with pairwise distinct
/// keys and positive values.
#[derive(Debug)]
pub struct Ladder {
    entries: Vec<(i64, u64)>,
}

impl View for Ladder {
    type V = Map<i64, u64>;

    closed spec fn view(&self) -> Map<i64, u64> {
        Map::new(
            |k: i64| has_key(self.entries@, k),
            |k: i64| self.entries@[index_of(self.entries@, k)].1,
        )
    }
}

impl Ladder {
    /// Representation invariant: keys are pairwise distinct and every level
    /// holds at least one lot.
    pub closed spec fn wf(self) -> bool {
        &&& forall|i: int, j: int|
            0 <= i < j < self.entries@.len() ==> self.entries@[i].0 != self.entries@[j].0
        &&& forall|i: int| 0 <= i < self.entries@.len() ==> (#[trigger] self.entries@[i]).1 >= 1
    }

    /// Number of stored levels; drives termination of draining loops.
    pub closed spec fn size(self) -> nat {
        self.entries@.len()
    }

    /// The entry at index `i` is what the map abstraction says of its key.
    proof fn lemma_at(self, i: int)
        requires
            self.wf(),
            0 <= i < self.entries@.len(),
        ensures
            self@.dom().contains(self.entries@[i].0),
            self@[self.entries@[i].0] == self.entries@[i].1,
    {
        let s = self.entries@;
        let k = s[i].0;
        assert(has_key(s, k));
        let j = index_of(s, k);
        if j < i {
            assert(s[j].0 != s[i].0);
        } else if i < j {
            assert(s[i].0 != s[j].0);
        }
    }

    /// Every level a well-formed ladder stores holds at least one lot.
    pub proof fn lemma_positive(self)
        requires
            self.wf(),
        ensures
            forall|k: i64| #[trigger] self@.dom().contains(k) ==> self@[k] >= 1,
    {
        assert forall|k: i64| #[trigger] self@.dom().contains(k) implies self@[k] >= 1 by {
            let i = index_of(self.entries@, k);
            self.lemma_at(i);
        }
    }

    pub fn new() -> (r: Ladder)
        ensures
            r.wf(),
            r@ == Map::<i64, u64>::empty(),
    {
        let r = Ladder { entries: Vec::new() };
        proof {
            assert(r@.dom() =~= Set::<i64>::empty());
            assert(r@ =~= Map::<i64, u64>::empty());
        }
        r
    }

    /// Index of the entry with key `t`, if one is stored.
    fn find(&self, t: i64) -> (r: Option<usize>)
        ensures
            match r {
                Some(i) => i < self.entries@.len() && self.entries@[i as int].0 == t,
                None => !has_key(self.entries@, t),
            },
    {
        let mut i: usize = 0;
        while i < self.entries.len()
            invariant
                i <= self.entries@.len(),
                forall|j: int| 0 <= j < i ==> self.entries@[j].0 != t,
            decreases self.entries@.len() - i,
        {
            if self.entries[i].0 == t {
                return Some(i);
            }
            i = i + 1;
        }
        None
    }

    /// The lots resting at tick `t`, zero when the tick is absent.
    pub fn get(&self, t: i64) -> (r: u64)
        requires
            self.wf(),
        ensures
            r == (if self@.dom().contains(t) {
                self@[t]
            } else {
                0u64
            }),
    {
        match self.find(t) {
            Some(i) => {
                proof {
                    self.lemma_at(i as int);
                }
                self.entries[i].1
            },
            None => 0,
        }
    }

    /// Replace the level at tick `t` with `lots` (creating it if absent).
    pub fn set(&mut self, t: i64, lots: u64)
        requires
            old(self).wf(),
            1 <= lots,
        ensures
            final(self).wf(),
            final(self)@ == old(self)@.insert(t, lots),
            final(self).size() <= old(self).size() + 1,
    {
        let found = self.find(t);
        match found {
            Some(i) => {
                self.entries[i] = (t, lots);
                proof {
                    let s1 = old(self).entries@;
                    let s2 = self.entries@;
                    assert(s2 == s1.update(i as int, (t, lots)));
                    assert(forall|j: int| 0 <= j < s1.len() ==> s2[j].0 == s1[j].0);
                    assert(self.wf());
                    assert forall|k: i64| has_key(s2, k) == has_key(s1, k) by {
                        if has_key(s2, k) {
                            let i0 = choose|i0: int| 0 <= i0 < s2.len() && s2[i0].0 == k;
                            assert(s1[i0].0 == k);
                        }
                        if has_key(s1, k) {
                            let i0 = choose|i0: int| 0 <= i0 < s1.len() && s1[i0].0 == k;
                            assert(s2[i0].0 == k);
                        }
                    }
                    assert forall|k: i64| #[trigger] self@.dom().contains(k) implies self@[k]
                        == old(self)@.insert(t, lots)[k] by {
                        let j = index_of(s2, k);
                        self.lemma_at(j);
                        if k == t {
                            assert(j == i) by {
                                if j < i as int {
                                    assert(s2[j].0 != s2[i as int].0);
                                } else if (i as int) < j {
                                    assert(s2[i as int].0 != s2[j].0);
                                }
                            }
                        } else {
                            assert(j != i);
                            old(self).lemma_at(j);
                        }
                    }
                    assert(self@ =~= old(self)@.insert(t, lots));
                }
            },
            None => {
                self.entries.push((t, lots));
                proof {
                    let s1 = old(self).entries@;
                    let s2 = self.entries@;
                    assert(s2 == s1.push((t, lots)));
                    assert(forall|j: int| 0 <= j < s1.len() ==> s2[j] == s1[j]);
                    assert(self.wf());
                    assert forall|k: i64| has_key(s2, k) == (has_key(s1, k) || k == t) by {
                        if has_key(s2, k) {
                            let i0 = choose|i0: int| 0 <= i0 < s2.len() && s2[i0].0 == k;
                            if i0 < s1.len() {
                                assert(s1[i0].0 == k);
                            }
                        }
                        if has_key(s1, k) {
                            let i0 = choose|i0: int| 0 <= i0 < s1.len() && s1[i0].0 == k;
                            assert(s2[i0].0 == k);
                        }
                        if k == t {
                            assert(s2[s1.len() as int].0 == k);
                        }
                    }
                    assert forall|k: i64| #[trigger] self@.dom().contains(k) implies self@[k]
                        == old(self)@.insert(t, lots)[k] by {
                        let j = index_of(s2, k);
                        self.lemma_at(j);
                        if k == t {
                            assert(j == s1.len()) by {
                                if j < s1.len() {
                                    assert(has_key(s1, t));
                                }
                            }
                        } else {
                            assert(j < s1.len());
                            old(self).lemma_at(j);
                        }
                    }
                    assert(self@ =~= old(self)@.insert(t, lots));
                }
            },
        }
    }

    /// Erase the level at tick `t`, if present.
    pub fn erase(&mut self, t: i64)
        requires
            old(self).wf(),
        ensures
            final(self).wf(),
            final(self)@ == old(self)@.remove(t),
            final(self).size() <= old(self).size(),
            old(self)@.dom().contains(t) ==> final(self).size() < old(self).size(),
    {
        let found = self.find(t);
        match found {
            Some(i) => {
                self.entries.remove(i);
                proof {
                    let s1 = old(self).entries@;
                    let s2 = self.entries@;
                    let iw: int = i as int;
                    assert(s2 == s1.remove(iw));
                    assert(forall|j: int| 0 <= j < iw ==> s2[j] == s1[j]);
                    assert(forall|j: int| iw <= j < s2.len() ==> s2[j] == s1[j + 1]);
                    assert forall|a: int, b: int| 0 <= a < b < s2.len() implies s2[a].0
                        != s2[b].0 by {
                        let a1: int = if a < iw {
                            a
                        } else {
                            a + 1
                        };
                        let b1: int = if b < iw {
                            b
                        } else {
                            b + 1
                        };
                        assert(s1[a1].0 != s1[b1].0);
                    }
                    assert(self.wf());
                    assert forall|k: i64| has_key(s2, k) == (has_key(s1, k) && k != t) by {
                        if has_key(s2, k) {
                            let i0 = choose|i0: int| 0 <= i0 < s2.len() && s2[i0].0 == k;
                            let i1: int = if i0 < iw {
                                i0
                            } else {
                                i0 + 1
                            };
                            assert(s1[i1].0 == k);
                            if k == t {
                                if i1 < iw {
                                    assert(s1[i1].0 != s1[iw].0);
                                } else {
                                    assert(s1[iw].0 != s1[i1].0);
                                }
                            }
                        }
                        if has_key(s1, k) && k != t {
                            let i0 = choose|i0: int| 0 <= i0 < s1.len() && s1[i0].0 == k;
                            assert(i0 != iw);
                            let i1: int = if i0 < iw {
                                i0
                            } else {
                                i0 - 1
                            };
                            assert(s2[i1].0 == k);
                        }
                    }
                    assert forall|k: i64| #[trigger] self@.dom().contains(k) implies self@[k]
                        == old(self)@.remove(t)[k] by {
                        let j = index_of(s2, k);
                        self.lemma_at(j);
                        let j1: int = if j < iw {
                            j
                        } else {
                            j + 1
                        };
                        assert(s1[j1] == s2[j]);
                        old(self).lemma_at(j1);
                    }
                    assert(self@ =~= old(self)@.remove(t));
                    assert(old(self)@.dom().contains(t)) by {
                        old(self).lemma_at(iw);
                    }
                }
            },
            None => {
                proof {
                    assert(self@ =~= old(self)@.remove(t));
                }
            },
        }
    }

    /// The greatest stored tick, `None` when the side is empty.
    pub fn max_key(&self) -> (r: Option<i64>)
        requires
            self.wf(),
        ensures
            match r {
                Some(k) => self@.dom().contains(k) && forall|k2: i64|
                    #[trigger] self@.dom().contains(k2) ==> k2 <= k,
                None => self@ == Map::<i64, u64>::empty(),
            },
    {
        if self.entries.len() == 0 {
            proof {
                assert(self@.dom() =~= Set::<i64>::empty());
                assert(self@ =~= Map::<i64, u64>::empty());
            }
            return None;
        }
        let mut best: i64 = self.entries[0].0;
        let mut i: usize = 1;
        while i < self.entries.len()
            invariant
                1 <= i <= self.entries@.len(),
                exists|j: int| 0 <= j < i && self.entries@[j].0 == best,
                forall|j: int| 0 <= j < i ==> (#[trigger] self.entries@[j]).0 <= best,
            decreases self.entries@.len() - i,
        {
            if self.entries[i].0 > best {
                best = self.entries[i].0;
            }
            i = i + 1;
        }
        proof {
            let jb = choose|j: int| 0 <= j < self.entries@.len() && self.entries@[j].0 == best;
            self.lemma_at(jb);
            assert forall|k2: i64| #[trigger] self@.dom().contains(k2) implies k2 <= best by {
                let j = index_of(self.entries@, k2);
                assert(self.entries@[j].0 == k2);
            }
        }
        Some(best)
    }

    /// The least stored tick, `None` when the side is empty.
    pub fn min_key(&self) -> (r: Option<i64>)
        requires
            self.wf(),
        ensures
            match r {
                Some(k) => self@.dom().contains(k) && forall|k2: i64|
                    #[trigger] self@.dom().contains(k2) ==> k2 >= k,
                None => self@ == Map::<i64, u64>::empty(),
            },
    {
        if self.entries.len() == 0 {
            proof {
                assert(self@.dom() =~= Set::<i64>::empty());
                assert(self@ =~= Map::<i64, u64>::empty());
            }
            return None;
        }
        let mut best: i64 = self.entries[0].0;
        let mut i: usize = 1;
        while i < self.entries.len()
            invariant
                1 <= i <= self.entries@.len(),
                exists|j: int| 0 <= j < i && self.entries@[j].0 == best,
                forall|j: int| 0 <= j < i ==> (#[trigger] self.entries@[j]).0 >= best,
            decreases self.entries@.len() - i,
        {
            if self.entries[i].0 < best {
                best = self.entries[i].0;
            }
            i = i + 1;
        }
        proof {
            let jb = choose|j: int| 0 <= j < self.entries@.len() && self.entries@[j].0 == best;
            self.lemma_at(jb);
            assert forall|k2: i64| #[trigger] self@.dom().contains(k2) implies k2 >= best by {
                let j = index_of(self.entries@, k2);
                assert(self.entries@[j].0 == k2);
            }
        }
        Some(best)
    }

    /// Erase every level.
    pub fn clear(&mut self)
        ensures
            final(self).wf(),
            final(self)@ == Map::<i64, u64>::empty(),
    {
        self.entries.clear();
        proof {
            assert(self@.dom() =~= Set::<i64>::empty());
            assert(self@ =~= Map::<i64, u64>::empty());
        }
    }

    /// Erase every level at a tick greater than or equal to `t`.
    pub fn erase_from(&mut self, t: i64)
        requires
            old(self).wf(),
        ensures
            final(self).wf(),
            forall|k: i64| #[trigger] final(self)@.dom().contains(k) <==> (
            old(self)@.dom().contains(k) && k < t),
            forall|k: i64| #[trigger] final(self)@.dom().contains(k) ==> final(self)@[k] == old(
                self,
            )@[k],
    {
        loop
            invariant
                self.wf(),
                forall|k: i64| #[trigger] self@.dom().contains(k) ==> old(self)@.dom().contains(k)
                    && self@[k] == old(self)@[k],
                forall|k: i64| old(self)@.dom().contains(k) && k < t ==> #[trigger] self@.dom().contains(k),
            ensures
                self.wf(),
                forall|k: i64| #[trigger] self@.dom().contains(k) ==> old(self)@.dom().contains(k)
                    && self@[k] == old(self)@[k] && k < t,
                forall|k: i64| old(self)@.dom().contains(k) && k < t ==> #[trigger] self@.dom().contains(k),
            decreases self.size(),
        {
            let m = self.max_key();
            match m {
                None => {
                    break;
                },
                Some(k) => {
                    if k < t {
                        break;
                    }
                    self.erase(k);
                },
            }
        }
    }

    /// Erase every level at a tick less than or equal to `t`.
    pub fn erase_upto(&mut self, t: i64)
        requires
            old(self).wf(),
        ensures
            final(self).wf(),
            forall|k: i64| #[trigger] final(self)@.dom().contains(k) <==> (
            old(self)@.dom().contains(k) && k > t),
            forall|k: i64| #[trigger] final(self)@.dom().contains(k) ==> final(self)@[k] == old(
                self,
            )@[k],
    {
        loop
            invariant
                self.wf(),
                forall|k: i64| #[trigger] self@.dom().contains(k) ==> old(self)@.dom().contains(k)
                    && self@[k] == old(self)@[k],
                forall|k: i64| old(self)@.dom().contains(k) && k > t ==> #[trigger] self@.dom().contains(k),
            ensures
                self.wf(),
                forall|k: i64| #[trigger] self@.dom().contains(k) ==> old(self)@.dom().contains(k)
                    && self@[k] == old(self)@[k] && k > t,
                forall|k: i64| old(self)@.dom().contains(k) && k > t ==> #[trigger] self@.dom().contains(k),
            decreases self.size(),
        {
            let m = self.min_key();
            match m {
                None => {
                    break;
                },
                Some(k) => {
                    if k > t {
                        break;
                    }
                    self.erase(k);
                },
            }
        }
    }

    /// A copy of every level, as (tick, lots) pairs with pairwise distinct
    /// ticks; together they enumerate the map exactly.
    pub fn items(&self) -> (r: Vec<(i64, u64)>)
        requires
            self.wf(),
        ensures
            forall|i: int| 0 <= i < r@.len() ==> self@.dom().contains((#[trigger] r@[i]).0)
                && self@[r@[i].0] == r@[i].1,
            forall|i: int, j: int| 0 <= i < j < r@.len() ==> r@[i].0 != r@[j].0,
            forall|k: i64| #[trigger] self@.dom().contains(k) ==> exists|i: int|
                0 <= i < r@.len() && r@[i].0 == k,
    {
        let mut out: Vec<(i64, u64)> = Vec::new();
        let mut i: usize = 0;
        while i < self.entries.len()
            invariant
                i <= self.entries@.len(),
                out@ == self.entries@.subrange(0, i as int),
            decreases self.entries@.len() - i,
        {
            out.push(self.entries[i]);
            i = i + 1;
        }
        proof {
            assert(out@ =~= self.entries@);
            assert forall|j: int| 0 <= j < out@.len() implies self@.dom().contains(
                (#[trigger] out@[j]).0,
            ) && self@[out@[j].0] == out@[j].1 by {
                self.lemma_at(j);
            }
            assert forall|k: i64| #[trigger] self@.dom().contains(k) implies exists|j: int|
                0 <= j < out@.len() && out@[j].0 == k by {
                let j = index_of(self.entries@, k);
                assert(out@[j].0 == k);
            }
        }
        out
    }
}

} // verus!

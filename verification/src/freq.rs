//! Frequency tables: how many times each category occurs.

use vstd::prelude::*;

use crate::element::EquivalenceTarget;

verus! {

/// Counts per category. Every category appears in at most one entry; entries
/// whose count dropped to zero are kept.
pub struct FrequencyTable<T> {
    values: Vec<T>,
    counts: Vec<usize>,
}

impl<T: View> FrequencyTable<T> {
    /// Lengths agree and no category has two entries.
    pub closed spec fn wf(&self) -> bool {
        &&& self.values@.len() == self.counts@.len()
        &&& forall|a: int, b: int|
            0 <= a < b < self.values@.len() ==> #[trigger] self.values@[a]@ != #[trigger] self.values@[b]@
    }

    /// The entry, if any, that holds category `v`.
    closed spec fn slot(&self, v: T::V) -> int {
        choose|i: int| 0 <= i < self.values@.len() && self.values@[i]@ == v
    }

    closed spec fn has(&self, v: T::V) -> bool {
        exists|i: int| 0 <= i < self.values@.len() && #[trigger] self.values@[i]@ == v
    }

    /// How many times category `v` has been counted.
    pub closed spec fn count(&self, v: T::V) -> nat {
        if self.has(v) {
            self.counts@[self.slot(v)] as nat
        } else {
            0
        }
    }

    proof fn lemma_slot(&self, i: int)
        requires
            self.wf(),
            0 <= i < self.values@.len(),
        ensures
            self.count(self.values@[i]@) == self.counts@[i],
    {
        let v = self.values@[i]@;
        assert(self.has(v));
        let s = self.slot(v);
        if s != i {
            if s < i {
                assert(self.values@[s]@ != self.values@[i]@);
            } else {
                assert(self.values@[i]@ != self.values@[s]@);
            }
        }
    }
}

impl<T: EquivalenceTarget> FrequencyTable<T> {
    /// An empty table.
    pub fn new() -> (r: Self)
        ensures
            r.wf(),
            forall|v: T::V| r.count(v) == 0,
    {
        FrequencyTable { values: Vec::new(), counts: Vec::new() }
    }

    /// Index of the entry for the category of `v`, if any.
    fn find(&self, v: &T) -> (r: Option<usize>)
        requires
            self.wf(),
        ensures
            match r {
                Some(i) => i < self.values@.len() && self.values@[i as int]@ == v@,
                None => !self.has(v@),
            },
    {
        let n = self.values.len();
        for i in 0..n
            invariant
                n == self.values@.len(),
                forall|a: int| 0 <= a < i ==> self.values@[a]@ != v@,
        {
            if self.values[i].equivalent(v) {
                return Some(i);
            }
        }
        None
    }

    /// How many times the category of `v` has been counted.
    pub fn count_of(&self, v: &T) -> (r: usize)
        requires
            self.wf(),
        ensures
            r == self.count(v@),
    {
        match self.find(v) {
            Some(i) => {
                proof { self.lemma_slot(i as int); }
                self.counts[i]
            },
            None => 0,
        }
    }

    /// Counts one more occurrence of the category of `v`.
    pub fn increment(&mut self, v: &T)
        requires
            old(self).wf(),
            old(self).count(v@) < usize::MAX,
        ensures
            final(self).wf(),
            forall|w: T::V|
                #[trigger] final(self).count(w) == if w == v@ {
                    old(self).count(w) + 1
                } else {
                    old(self).count(w)
                },
    {
        match self.find(v) {
            Some(i) => {
                proof { self.lemma_slot(i as int); }
                let c = self.counts[i];
                self.counts.set(i, c + 1);
                proof {
                    assert forall|w: T::V| #[trigger] self.count(w) == if w == v@ {
                        old(self).count(w) + 1
                    } else {
                        old(self).count(w)
                    } by {
                        if old(self).has(w) {
                            let s = old(self).slot(w);
                            old(self).lemma_slot(s);
                            self.lemma_slot(s);
                        } else {
                            if self.has(w) {
                                let s = self.slot(w);
                                assert(old(self).values@[s]@ == w);
                            }
                        }
                    }
                }
            },
            None => {
                let ghost n: int = self.values@.len() as int;
                self.values.push(v.duplicate());
                self.counts.push(1);
                proof {
                    assert forall|w: T::V| #[trigger] self.count(w) == if w == v@ {
                        old(self).count(w) + 1
                    } else {
                        old(self).count(w)
                    } by {
                        if w == v@ {
                            self.lemma_slot(n);
                        } else if old(self).has(w) {
                            let s = old(self).slot(w);
                            old(self).lemma_slot(s);
                            self.lemma_slot(s);
                        } else {
                            if self.has(w) {
                                let s = self.slot(w);
                                assert(s != n);
                                assert(old(self).values@[s]@ == w);
                            }
                        }
                    }
                }
            },
        }
    }
}

impl<T: EquivalenceTarget> FrequencyTable<T> {
    /// Counts one occurrence less of the category of `v` (a count of zero stays zero).
    pub fn decrement(&mut self, v: &T)
        requires
            old(self).wf(),
        ensures
            final(self).wf(),
            forall|w: T::V|
                #[trigger] final(self).count(w) == if w == v@ && old(self).count(w) > 0 {
                    (old(self).count(w) - 1) as nat
                } else {
                    old(self).count(w)
                },
    {
        if let Some(i) = self.find(v) {
            proof { self.lemma_slot(i as int); }
            let c = self.counts[i];
            if c > 0 {
                self.counts.set(i, c - 1);
                proof {
                    assert forall|w: T::V| #[trigger] self.count(w) == if w == v@ && old(self).count(w) > 0 {
                        (old(self).count(w) - 1) as nat
                    } else {
                        old(self).count(w)
                    } by {
                        if old(self).has(w) {
                            let s = old(self).slot(w);
                            old(self).lemma_slot(s);
                            self.lemma_slot(s);
                        } else {
                            if self.has(w) {
                                let s = self.slot(w);
                                assert(old(self).values@[s]@ == w);
                            }
                        }
                    }
                }
            }
        }
    }

    /// A category with the largest positive count, and that count; `None`
    /// when every count is zero.
    pub fn most_frequent(&self) -> (r: Option<(&T, usize)>)
        requires
            self.wf(),
        ensures
            match r {
                None => forall|w: T::V| #[trigger] self.count(w) == 0,
                Some((val, c)) => {
                    &&& c == self.count(val@)
                    &&& c > 0
                    &&& forall|w: T::V| #[trigger] self.count(w) <= c
                },
            },
    {
        let n = self.values.len();
        let mut best: Option<usize> = None;
        let mut best_count: usize = 0;
        for i in 0..n
            invariant
                n == self.values@.len(),
                self.wf(),
                match best {
                    None => best_count == 0,
                    Some(b) => b < n && best_count == self.counts@[b as int] && best_count > 0,
                },
                forall|a: int| 0 <= a < i ==> #[trigger] self.counts@[a] <= best_count,
        {
            if self.counts[i] > best_count {
                best = Some(i);
                best_count = self.counts[i];
            }
        }
        proof {
            assert forall|w: T::V| #[trigger] self.count(w) <= best_count by {
                if self.has(w) {
                    let s = self.slot(w);
                    assert(self.counts@[s] <= best_count);
                }
            }
        }
        match best {
            None => None,
            Some(b) => {
                proof { self.lemma_slot(b as int); }
                Some((&self.values[b], best_count))
            },
        }
    }
}

} // verus!

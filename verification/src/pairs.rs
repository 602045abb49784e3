//! The pair index: a deduplication set over unordered node-index pairs,
//! kept consistent with the edge store so that no two live edges ever join
//! the same two nodes and no edge joins a node to itself.

use vstd::prelude::*;

verus! {

/// The canonical form of the unordered pair `{a, b}`: smaller index first.
pub open spec fn ordered_pair(a: usize, b: usize) -> (usize, usize) {
    if a < b {
        (a, b)
    } else {
        (b, a)
    }
}

/// The set of unordered pairs currently joined by a live edge, stored in
/// canonical form with no duplicates.
pub struct PairIndex {
    pub items: Vec<(usize, usize)>,
}

impl View for PairIndex {
    type V = Set<(usize, usize)>;

    open spec fn view(&self) -> Set<(usize, usize)> {
        Set::new(|p: (usize, usize)| self.items@.contains(p))
    }
}

impl PairIndex {
    /// Every stored pair is canonical (so never a self-pair) and appears once.
    pub open spec fn wf(self) -> bool {
        &&& forall|k: int| 0 <= k < self.items@.len() ==> (#[trigger] self.items@[k]).0 < self.items@[k].1
        &&& forall|k: int, l: int|
            0 <= k < l < self.items@.len() ==> #[trigger] self.items@[k] != #[trigger] self.items@[l]
    }

    pub fn new() -> (r: PairIndex)
        ensures
            r.wf(),
            r@ == Set::<(usize, usize)>::empty(),
    {
        let r = PairIndex { items: Vec::new() };
        proof {
            assert(r@ =~= Set::<(usize, usize)>::empty());
        }
        r
    }

    /// Membership of the unordered pair `{a, b}`, in either orientation.
    pub fn contains_pair(&self, a: usize, b: usize) -> (r: bool)
        ensures
            r == self@.contains(ordered_pair(a, b)),
    {
        let p: (usize, usize) = if a < b {
            (a, b)
        } else {
            (b, a)
        };
        let mut k: usize = 0;
        while k < self.items.len()
            invariant
                0 <= k <= self.items@.len(),
                p == ordered_pair(a, b),
                forall|j: int| 0 <= j < k ==> self.items@[j] != p,
            decreases self.items@.len() - k,
        {
            if self.items[k].0 == p.0 && self.items[k].1 == p.1 {
                assert(self.items@.contains(p));
                return true;
            }
            k += 1;
        }
        assert(!self.items@.contains(p)) by {
            if self.items@.contains(p) {
                let j = choose|j: int| 0 <= j < self.items@.len() && self.items@[j] == p;
                assert(self.items@[j] != p);
            }
        }
        false
    }

    /// Insert the unordered pair `{a, b}`; the caller has already rejected a
    /// self-pair or a pair already present, in either orientation.
    pub fn insert_pair(&mut self, a: usize, b: usize)
        requires
            old(self).wf(),
            a != b,
            !old(self)@.contains(ordered_pair(a, b)),
        ensures
            final(self).wf(),
            final(self)@ == old(self)@.insert(ordered_pair(a, b)),
    {
        let p: (usize, usize) = if a < b {
            (a, b)
        } else {
            (b, a)
        };
        self.items.push(p);
        proof {
            assert forall|q: (usize, usize)| #[trigger]
                self@.contains(q) implies old(self)@.insert(ordered_pair(a, b)).contains(q) by {
                let j = choose|j: int| 0 <= j < self.items@.len() && self.items@[j] == q;
                if j < self.items@.len() - 1 {
                    assert(old(self).items@[j] == q);
                    assert(old(self).items@.contains(q));
                }
            }
            assert forall|q: (usize, usize)| #[trigger]
                old(self)@.insert(ordered_pair(a, b)).contains(q) implies self@.contains(q) by {
                if q == ordered_pair(a, b) {
                    assert(self.items@[self.items@.len() - 1] == q);
                } else {
                    let j = choose|j: int|
                        0 <= j < old(self).items@.len() && old(self).items@[j] == q;
                    assert(self.items@[j] == q);
                }
            }
            assert(self@ =~= old(self)@.insert(ordered_pair(a, b)));
            assert forall|k: int, l: int|
                0 <= k < l < self.items@.len() implies #[trigger] self.items@[k] != #[trigger] self.items@[l] by {
                if l == self.items@.len() - 1 {
                    assert(old(self).items@[k] == self.items@[k]);
                    assert(old(self).items@.contains(self.items@[k]));
                }
            }
        }
    }

    /// Remove the unordered pair `{a, b}` if present, in either orientation.
    pub fn remove_pair(&mut self, a: usize, b: usize)
        requires
            old(self).wf(),
        ensures
            final(self).wf(),
            final(self)@ == old(self)@.remove(ordered_pair(a, b)),
    {
        let p: (usize, usize) = if a < b {
            (a, b)
        } else {
            (b, a)
        };
        let mut k: usize = 0;
        while k < self.items.len()
            invariant
                old(self).wf(),
                self == old(self),
                0 <= k <= self.items@.len(),
                p == ordered_pair(a, b),
                forall|j: int| 0 <= j < k ==> self.items@[j] != p,
            decreases self.items@.len() - k,
        {
            if self.items[k].0 == p.0 && self.items[k].1 == p.1 {
                self.items.remove(k);
                proof {
                    let pre = old(self).items@;
                    assert(self.items@ =~= pre.subrange(0, k as int) + pre.subrange(
                        k as int + 1,
                        pre.len() as int,
                    ));
                    assert forall|q: (usize, usize)| #[trigger]
                        self@.contains(q) implies old(self)@.remove(p).contains(q) by {
                        let j = choose|j: int| 0 <= j < self.items@.len() && self.items@[j] == q;
                        if j < k {
                            assert(pre[j] == q);
                            assert(pre.contains(q));
                            assert(pre[j] != pre[k as int]);
                        } else {
                            assert(pre[j + 1] == q);
                            assert(pre.contains(q));
                            assert(pre[k as int] != pre[j + 1]);
                        }
                    }
                    assert forall|q: (usize, usize)| #[trigger]
                        old(self)@.remove(p).contains(q) implies self@.contains(q) by {
                        let j = choose|j: int| 0 <= j < pre.len() && pre[j] == q;
                        if j < k {
                            assert(self.items@[j] == q);
                        } else {
                            assert(j != k);
                            assert(self.items@[j - 1] == q);
                        }
                    }
                    assert(self@ =~= old(self)@.remove(p));
                    assert forall|x: int, y: int|
                        0 <= x < y < self.items@.len() implies #[trigger] self.items@[x] != #[trigger] self.items@[y] by {
                        let xo: int = if x < k { x } else { x + 1 };
                        let yo: int = if y < k { y } else { y + 1 };
                        assert(self.items@[x] == pre[xo]);
                        assert(self.items@[y] == pre[yo]);
                    }
                }
                return ;
            }
            k += 1;
        }
        proof {
            assert(!self@.contains(p)) by {
                if self.items@.contains(p) {
                    let j = choose|j: int| 0 <= j < self.items@.len() && self.items@[j] == p;
                    assert(self.items@[j] != p);
                }
            }
            assert(self@ =~= old(self)@.remove(p));
        }
    }

} // impl PairIndex

} // verus!

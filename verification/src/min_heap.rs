use vstd::prelude::*;
use vstd::multiset::Multiset;

verus! {

/// Lexicographic order on index pairs.
pub open spec fn pair_le(a: (usize, usize), b: (usize, usize)) -> bool {
    a.0 < b.0 || (a.0 == b.0 && a.1 <= b.1)
}

/// A monomorphic priority queue over index pairs, handing out the
/// lexicographically smallest entry first.
///
/// The entries are kept sorted with the smallest at the back, so `pop`
/// and `peek` are constant-time; duplicates are allowed.  Only the
/// multiset of entries and the minimality of what comes out are part of
/// the contract.
pub struct MinHeap {
    items: Vec<(usize, usize)>,
}

impl MinHeap {
    /// The stored entries as a multiset.
    pub closed spec fn view(self) -> Multiset<(usize, usize)> {
        self.items@.to_multiset()
    }

    /// Internal order: descending, smallest last.
    spec fn sorted(self) -> bool {
        forall|i: int, j: int|
            0 <= i < j < self.items@.len() ==> pair_le(#[trigger] self.items@[j], #[trigger] self.items@[i])
    }

    pub closed spec fn wf(self) -> bool {
        self.sorted()
    }

    pub fn new() -> (r: MinHeap)
        ensures
            r@ == Multiset::<(usize, usize)>::empty(),
            r.wf(),
    {
        let items: Vec<(usize, usize)> = Vec::new();
        proof {
            items@.to_multiset_ensures();
        }
        MinHeap { items }
    }

    pub fn push(&mut self, t: (usize, usize))
        requires
            old(self).wf(),
        ensures
            final(self).wf(),
            final(self)@ == old(self)@.insert(t),
    {
        proof {
            self.items@.to_multiset_ensures();
        }
        let mut i: usize = self.items.len();
        while i > 0 && (self.items[i - 1].0 < t.0 || (self.items[i - 1].0 == t.0
            && self.items[i - 1].1 <= t.1))
            invariant
                i <= self.items@.len(),
                self.sorted(),
                self.items@ == old(self).items@,
                forall|k: int| i <= k < self.items@.len() ==> pair_le(#[trigger] self.items@[k], t),
            decreases i,
        {
            i -= 1;
        }
        let ghost pre = self.items@;
        self.items.insert(i, t);
        proof {
            assert forall|k: int, l: int|
                0 <= k < l < self.items@.len() implies pair_le(
                #[trigger] self.items@[l],
                #[trigger] self.items@[k],
            ) by {
                if k < i && l > i {
                    assert(self.items@[k] == pre[k]);
                    assert(self.items@[l] == pre[l - 1]);
                } else if k == i && l > i {
                    assert(self.items@[l] == pre[l - 1]);
                } else if k < i && l == i {
                    assert(self.items@[k] == pre[k]);
                    assert(!pair_le(pre[i - 1], t) || i == 0);
                    assert(pair_le(t, pre[k]));
                }
            }
            pre.to_multiset_ensures();
            vstd::seq_lib::to_multiset_insert(pre, i as int, t);
        }
    }

    pub fn pop(&mut self) -> (r: Option<(usize, usize)>)
        requires
            old(self).wf(),
        ensures
            final(self).wf(),
            old(self)@.len() == 0 ==> r is None && final(self)@ == old(self)@,
            old(self)@.len() != 0 ==> {
                &&& r matches Option::Some(m)
                &&& old(self)@.count(m) > 0
                &&& final(self)@ == old(self)@.remove(m)
                &&& forall|x: (usize, usize)| old(self)@.count(x) > 0 ==> pair_le(m, x)
            },
    {
        proof {
            self.items@.to_multiset_ensures();
        }
        if self.items.len() == 0 {
            return None;
        }
        let ghost pre = self.items@;
        let m = self.items.pop().unwrap();
        proof {
            pre.to_multiset_ensures();
            assert(pre == self.items@.push(m));
            self.items@.to_multiset_ensures();
            assert(pre.to_multiset() == self.items@.to_multiset().insert(m));
            assert(self.items@.to_multiset() =~= pre.to_multiset().remove(m));
            assert forall|x: (usize, usize)| pre.to_multiset().count(x) > 0 implies pair_le(
                m,
                x,
            ) by {
                let k = choose|k: int| 0 <= k < pre.len() && pre[k] == x;
                assert(pre[pre.len() - 1] == m);
                if k < pre.len() - 1 {
                    assert(pair_le(pre[pre.len() - 1], pre[k]));
                }
            }
        }
        Some(m)
    }

    pub fn peek(&self) -> (r: Option<(usize, usize)>)
        requires
            self.wf(),
        ensures
            self@.len() == 0 ==> r is None,
            self@.len() != 0 ==> {
                &&& r matches Option::Some(m)
                &&& self@.count(m) > 0
                &&& forall|x: (usize, usize)| self@.count(x) > 0 ==> pair_le(m, x)
            },
    {
        proof {
            self.items@.to_multiset_ensures();
        }
        if self.items.len() == 0 {
            return None;
        }
        let m = self.items[self.items.len() - 1];
        proof {
            assert forall|x: (usize, usize)| self@.count(x) > 0 implies pair_le(m, x) by {
                let k = choose|k: int| 0 <= k < self.items@.len() && self.items@[k] == x;
                if k < self.items@.len() - 1 {
                    assert(pair_le(self.items@[self.items@.len() - 1], self.items@[k]));
                }
            }
        }
        Some(m)
    }

    pub fn is_empty(&self) -> (r: bool)
        ensures
            r == (self@.len() == 0),
    {
        proof {
            self.items@.to_multiset_ensures();
        }
        self.items.len() == 0
    }

    pub fn len(&self) -> (r: usize)
        ensures
            r == self@.len(),
    {
        proof {
            self.items@.to_multiset_ensures();
        }
        self.items.len()
    }
}

} // verus!

use vstd::prelude::*;

use crate::layout::{MAX_CAPACITY, MAX_DEGREE};
use crate::rectangle::Rectangle;
use crate::rtree::SegRTree;

verus! {

/// A packed tree over reordered leaves that answers queries in the
/// caller's original indices.
///
/// The spatially sorted bulk load hands the leaf rectangles over in a
/// chosen order — typically by the Hilbert key of their centers — and
/// keeps the permutation, so query results come back as the caller's
/// own indices rather than slot positions.
pub struct Flatbush {
    tree: SegRTree,
    node_indices: Vec<usize>,
}

impl Flatbush {
    pub closed spec fn tree_spec(self) -> SegRTree {
        self.tree
    }

    /// Slot position to caller index.
    pub closed spec fn map_spec(self) -> Seq<usize> {
        self.node_indices@
    }

    /// The tree, a stored permutation of the same length, and its
    /// injectivity.
    pub open spec fn wf(self) -> bool {
        &&& self.tree_spec().wf()
        &&& self.map_spec().len() == self.tree_spec().size()
        &&& forall|k: int|
            0 <= k < self.map_spec().len() ==> (#[trigger] self.map_spec()[k] as int)
                < self.map_spec().len()
        &&& forall|k1: int, k2: int|
            0 <= k1 < k2 < self.map_spec().len() ==> self.map_spec()[k1] != self.map_spec()[k2]
    }

    /// Some slot maps to this caller index and its rectangle meets the
    /// query.
    pub open spec fn is_mapped_hit(self, rect: Rectangle, u: usize) -> bool {
        exists|k: int|
            #![trigger self.map_spec()[k]]
            0 <= k < self.tree_spec().size() && self.map_spec()[k] == u && self.tree_spec()
                .leaf_rect(k).spec_intersects(rect)
    }

    pub fn len(&self) -> (r: usize)
        ensures
            r as int == self.tree_spec().size(),
    {
        self.tree.len()
    }

    /// Bulk-load the rectangles in the given order, which must be a
    /// permutation of their indices; leaf `k` of the tree holds
    /// `rects[order[k]]`, and `order` is remembered for queries.
    pub fn new_ordered(degree: usize, rects: &Vec<Rectangle>, order: &Vec<usize>) -> (r: Flatbush)
        requires
            degree <= MAX_DEGREE,
            rects@.len() <= MAX_CAPACITY,
            order@.len() == rects@.len(),
            forall|k: int| 0 <= k < rects@.len() ==> (#[trigger] rects@[k]).wf(),
            forall|k: int|
                0 <= k < order@.len() ==> (#[trigger] order@[k] as int) < order@.len(),
            forall|k1: int, k2: int|
                0 <= k1 < k2 < order@.len() ==> order@[k1] != order@[k2],
        ensures
            r.wf(),
            r.tree_spec().size() == rects@.len(),
            r.map_spec() == order@,
            forall|k: int|
                0 <= k < rects@.len() ==> #[trigger] r.tree_spec().leaf_rect(k) == rects@[
                    order@[k] as int
                ],
    {
        let n = rects.len();
        let mut permuted: Vec<Rectangle> = Vec::new();
        let mut k: usize = 0;
        while k < n
            invariant
                n == rects@.len(),
                order@.len() == n,
                forall|m: int| 0 <= m < rects@.len() ==> (#[trigger] rects@[m]).wf(),
                forall|m: int|
                    0 <= m < order@.len() ==> (#[trigger] order@[m] as int) < order@.len(),
                k <= n,
                permuted@.len() == k,
                forall|m: int|
                    0 <= m < k ==> #[trigger] permuted@[m] == rects@[order@[m] as int],
            decreases n - k,
        {
            permuted.push(rects[order[k]]);
            k += 1;
        }
        proof {
            assert forall|m: int| 0 <= m < permuted@.len() implies (#[trigger] permuted@[
                m
            ]).wf() by {
                assert(permuted@[m] == rects@[order@[m] as int]);
            }
        }
        let tree = SegRTree::new_loaded(degree, &permuted);
        let node_indices = order.clone();
        Flatbush { tree, node_indices }
    }

    /// All caller indices whose rectangle intersects the query, each
    /// exactly once, in no promised order.
    pub fn query_rect(&self, rect: Rectangle) -> (r: Vec<usize>)
        requires
            self.wf(),
        ensures
            r@.no_duplicates(),
            forall|j: int| 0 <= j < r@.len() ==> self.is_mapped_hit(rect, #[trigger] r@[j]),
            forall|k: int|
                0 <= k < self.tree_spec().size() && (#[trigger] self.tree_spec().leaf_rect(
                    k,
                )).spec_intersects(rect) ==> r@.contains(self.map_spec()[k]),
    {
        let slots = self.tree.query_rect(rect);
        let mut results: Vec<usize> = Vec::new();
        let mut m: usize = 0;
        while m < slots.len()
            invariant
                self.wf(),
                slots@.no_duplicates(),
                forall|j: int|
                    0 <= j < slots@.len() ==> (#[trigger] slots@[j] as int)
                        < self.tree_spec().size() && self.tree_spec().leaf_rect(
                        slots@[j] as int,
                    ).spec_intersects(rect),
                forall|k: int|
                    0 <= k < self.tree_spec().size() && (#[trigger] self.tree_spec().leaf_rect(
                        k,
                    )).spec_intersects(rect) ==> slots@.contains(k as usize),
                m <= slots@.len(),
                results@.len() == m,
                forall|j: int|
                    0 <= j < m ==> #[trigger] results@[j] == self.map_spec()[slots@[j] as int],
            decreases slots@.len() - m,
        {
            results.push(self.node_indices[slots[m]]);
            m += 1;
        }
        proof {
            self.tree_spec().lemma_wf_basics();
            assert forall|j1: int, j2: int|
                0 <= j1 < results@.len() && 0 <= j2 < results@.len() && j1 != j2
                implies results@[j1] != results@[j2] by {
                assert(slots@[j1] != slots@[j2]);
                let a = slots@[j1] as int;
                let b = slots@[j2] as int;
                if a < b {
                    assert(self.map_spec()[a] != self.map_spec()[b]);
                } else {
                    assert(self.map_spec()[b] != self.map_spec()[a]);
                }
            }
            assert forall|j: int|
                0 <= j < results@.len() implies self.is_mapped_hit(
                rect,
                #[trigger] results@[j],
            ) by {
                let kw = slots@[j] as int;
                assert(self.map_spec()[kw] == results@[j]);
                assert(self.tree_spec().leaf_rect(kw).spec_intersects(rect));
                assert(0 <= kw < self.tree_spec().size() && self.map_spec()[kw] == results@[j]
                    && self.tree_spec().leaf_rect(kw).spec_intersects(rect));
            }
            assert forall|k: int|
                0 <= k < self.tree_spec().size() && (#[trigger] self.tree_spec().leaf_rect(
                    k,
                )).spec_intersects(rect) implies results@.contains(self.map_spec()[k]) by {
                assert(slots@.contains(k as usize));
                let j = choose|j: int| 0 <= j < slots@.len() && slots@[j] == k as usize;
                assert(slots@[j] as int == k);
                assert(results@[j] == self.map_spec()[slots@[j] as int]);
                assert(results@[j] == self.map_spec()[k]);
            }
        }
        results
    }
}

} // verus!

use vstd::prelude::*;

use vstd::arithmetic::power::{pow, lemma_pow_positive};

use crate::layout::{
    calculate_level_indices, ceil_div, lemma_ceil_div, lemma_child_span, lemma_div_by_one,
    lemma_level_size_bounds, lemma_offset_in_level, lemma_offset_span, lemma_offset_step,
    lemma_padding_span_empty, lemma_pow_step, lemma_real_span_nonempty, level_size, level_start,
    levels_wf, MAX_CAPACITY, MAX_DEGREE,
};
use crate::rectangle::{
    lemma_contains_pt_le, lemma_intersects_le, lemma_intersects_le_both, lemma_le_trans,
    lemma_merge_absorb, lemma_merge_assoc, lemma_merge_comm, lemma_merge_le, Rectangle,
};
use crate::coordinate::Coordinate;

verus! {

/// The error returned by `add` once an index is full.
#[derive(Clone, Copy, Debug, PartialEq, Eq, Structural)]
pub enum TreeError {
    CapacityExceeded,
}

/// The smaller of two integers.
pub open spec fn imin(a: int, b: int) -> int {
    if a <= b {
        a
    } else {
        b
    }
}

/// Union of the rectangles `leaves[lo..hi]`, empty for an empty range.
pub open spec fn span_union(leaves: Seq<Rectangle>, lo: int, hi: int) -> Rectangle
    decreases hi - lo,
{
    if lo >= hi {
        Rectangle::spec_empty()
    } else {
        span_union(leaves, lo, hi - 1).spec_merge(leaves[hi - 1])
    }
}

/// A span union over well-formed rectangles is well-formed.
pub proof fn lemma_span_union_wf(leaves: Seq<Rectangle>, lo: int, hi: int)
    requires
        forall|i: int| lo <= i < hi ==> (#[trigger] leaves[i]).wf(),
    ensures
        span_union(leaves, lo, hi).wf(),
    decreases hi - lo,
{
    if lo < hi {
        lemma_span_union_wf(leaves, lo, hi - 1);
        lemma_merge_le(span_union(leaves, lo, hi - 1), leaves[hi - 1]);
    }
}

/// Every rectangle in a span is covered by the span's union.
pub proof fn lemma_span_union_le(leaves: Seq<Rectangle>, lo: int, hi: int, i: int)
    requires
        forall|j: int| lo <= j < hi ==> (#[trigger] leaves[j]).wf(),
        lo <= i < hi,
    ensures
        leaves[i].le(span_union(leaves, lo, hi)),
    decreases hi - lo,
{
    lemma_span_union_wf(leaves, lo, hi - 1);
    if i == hi - 1 {
        lemma_merge_le(span_union(leaves, lo, hi - 1), leaves[hi - 1]);
    } else {
        lemma_span_union_le(leaves, lo, hi - 1, i);
        lemma_merge_le(span_union(leaves, lo, hi - 1), leaves[hi - 1]);
        lemma_le_trans(
            leaves[i],
            span_union(leaves, lo, hi - 1),
            span_union(leaves, lo, hi),
        );
    }
}

/// A span union splits at any midpoint.
pub proof fn lemma_span_union_split(leaves: Seq<Rectangle>, lo: int, mid: int, hi: int)
    requires
        forall|j: int| lo <= j < hi ==> (#[trigger] leaves[j]).wf(),
        lo <= mid <= hi,
    ensures
        span_union(leaves, lo, hi) == span_union(leaves, lo, mid).spec_merge(
            span_union(leaves, mid, hi),
        ),
    decreases hi - mid,
{
    lemma_span_union_wf(leaves, lo, mid);
    if mid == hi {
        lemma_merge_le(span_union(leaves, lo, mid), Rectangle::spec_empty());
    } else {
        lemma_span_union_split(leaves, lo, mid, hi - 1);
        lemma_span_union_wf(leaves, mid, hi - 1);
        lemma_merge_assoc(
            span_union(leaves, lo, mid),
            span_union(leaves, mid, hi - 1),
            leaves[hi - 1],
        );
    }
}

/// Joining `[a, k)` with an overlapping `[b, k+1)` yields `[a, k+1)`.
pub proof fn lemma_span_union_join(leaves: Seq<Rectangle>, a: int, b: int, k: int)
    requires
        forall|j: int| a <= j < k + 1 ==> (#[trigger] leaves[j]).wf(),
        a <= b <= k,
    ensures
        span_union(leaves, a, k).spec_merge(span_union(leaves, b, k + 1)) == span_union(
            leaves,
            a,
            k + 1,
        ),
{
    let ab = span_union(leaves, a, b);
    let bk = span_union(leaves, b, k);
    let kk = span_union(leaves, k, k + 1);
    lemma_span_union_wf(leaves, a, b);
    lemma_span_union_wf(leaves, b, k);
    lemma_span_union_wf(leaves, k, k + 1);
    lemma_span_union_split(leaves, a, b, k);
    lemma_span_union_split(leaves, b, k, k + 1);
    lemma_span_union_split(leaves, a, b, k + 1);
    // (ab + bk) + (bk + kk) == ab + (bk + kk)
    lemma_merge_le(bk, kk);
    lemma_merge_le(ab, bk);
    lemma_merge_assoc(ab, bk, bk.spec_merge(kk));
    lemma_merge_assoc(bk, bk, kk);
    lemma_merge_le(bk, bk);
    lemma_merge_absorb(bk, bk);
}

/// Span unions only read the rectangles inside the span.
pub proof fn lemma_span_union_frame(s1: Seq<Rectangle>, s2: Seq<Rectangle>, lo: int, hi: int)
    requires
        forall|j: int| lo <= j < hi ==> s1[j] == s2[j],
    ensures
        span_union(s1, lo, hi) == span_union(s2, lo, hi),
    decreases hi - lo,
{
    if lo < hi {
        lemma_span_union_frame(s1, s2, lo, hi - 1);
    }
}

/// A packed tree of rectangles over the segments of a polyline.
///
/// One flat array holds every level: the leaves first, then each level
/// of parents, each node covering `degree` children of the level below,
/// up to a single root.  Padding slots hold the empty rectangle.  The
/// well-formedness invariant pins every slot to the exact union of the
/// leaf rectangles its subtree spans, which is what makes the query
/// contracts below provable.
#[derive(Debug, Clone)]
pub struct SegRTree {
    degree: usize,
    max_size: usize,
    current_size: usize,
    current_level: usize,
    level_indices: Vec<usize>,
    tree: Vec<Rectangle>,
}

impl SegRTree {
    /// Branching factor.
    pub closed spec fn deg(self) -> int {
        self.degree as int
    }

    /// Leaf capacity the tree was sized for.
    pub closed spec fn capacity_spec(self) -> int {
        self.max_size as int
    }

    /// Number of leaves added so far.
    pub closed spec fn size(self) -> int {
        self.current_size as int
    }

    /// Level of the root in the currently filled part.
    pub closed spec fn height_spec(self) -> nat {
        self.current_level as nat
    }

    /// Number of levels the slot array was laid out for.
    pub closed spec fn num_levels(self) -> int {
        self.level_indices@.len() as int
    }

    /// The leaf rectangles, in insertion order.
    pub closed spec fn leaves(self) -> Seq<Rectangle> {
        self.tree@.subrange(0, self.size())
    }

    /// The rectangle of leaf `i`.
    pub open spec fn leaf_rect(self, i: int) -> Rectangle {
        self.leaves()[i]
    }

    /// First flat slot of level `l`.
    pub closed spec fn start(self, l: nat) -> int {
        level_start(self.deg(), self.capacity_spec(), l)
    }

    /// Number of slots on level `l`.
    pub closed spec fn nslots(self, l: nat) -> int {
        if l + 1 < self.num_levels() {
            self.start((l + 1) as nat) - self.start(l)
        } else {
            1
        }
    }

    /// The rectangle stored for node `(l, o)`.
    pub closed spec fn node_rect(self, l: nat, o: int) -> Rectangle {
        self.tree@[self.start(l) + o]
    }

    /// First leaf index spanned by node `(l, o)`, clamped to the size.
    pub open spec fn span_lo(self, l: nat, o: int) -> int {
        imin(o * pow(self.deg(), l), self.size())
    }

    /// One past the last leaf index spanned by node `(l, o)`, clamped.
    pub open spec fn span_hi(self, l: nat, o: int) -> int {
        imin((o + 1) * pow(self.deg(), l), self.size())
    }

    /// Every slot of the tree equals the union of the leaves it spans;
    /// levels above the current root are still untouched and empty.
    pub closed spec fn wf(self) -> bool {
        &&& 2 <= self.deg() <= MAX_DEGREE as int
        &&& self.capacity_spec() <= MAX_CAPACITY as int
        &&& levels_wf(self.deg(), self.capacity_spec(), self.level_indices@)
        &&& self.tree@.len() == self.level_indices@[self.num_levels() - 1] + 1
        &&& self.tree@.len() <= 0x4000_0001
        &&& self.capacity_spec() <= self.tree@.len()
        &&& 0 <= self.size() <= self.capacity_spec()
        &&& (self.height_spec() as int) < self.num_levels()
        &&& self.num_levels() <= self.capacity_spec() + 1
        &&& pow(self.deg(), self.height_spec()) >= self.size()
        &&& self.height_spec() == 0 || pow(self.deg(), (self.height_spec() - 1) as nat)
            < self.size()
        &&& forall|i: int| 0 <= i < self.tree@.len() ==> (#[trigger] self.tree@[i]).wf()
        &&& forall|l: nat, o: int|
            l <= self.height_spec() && 0 <= o < self.nslots(l) ==> #[trigger] self.node_rect(l, o)
                == span_union(self.leaves(), self.span_lo(l, o), self.span_hi(l, o))
        &&& forall|l: nat, o: int|
            self.height_spec() < l < self.num_levels() && 0 <= o < self.nslots(l)
                ==> #[trigger] self.node_rect(l, o) == Rectangle::spec_empty()
    }

    /// Slot indices of in-range nodes stay inside the flat array.
    proof fn lemma_slot_bounds(self, l: nat, o: int)
        requires
            self.wf(),
            l < self.num_levels(),
            0 <= o < self.nslots(l),
        ensures
            0 <= self.start(l) + o < self.tree@.len(),
    {
        lemma_slot_in_table(
            self.deg(),
            self.capacity_spec(),
            self.level_indices@,
            l,
            o,
        );
    }

    pub fn len(&self) -> (r: usize)
        ensures
            r as int == self.size(),
    {
        self.current_size
    }

    pub fn is_empty(&self) -> (r: bool)
        ensures
            r == (self.size() == 0),
    {
        self.current_size == 0
    }

    pub fn height(&self) -> (r: usize)
        ensures
            r as nat == self.height_spec(),
    {
        self.current_level
    }

    pub fn degree(&self) -> (r: usize)
        ensures
            r as int == self.deg(),
    {
        self.degree
    }

    pub fn capacity(&self) -> (r: usize)
        ensures
            r as int == self.capacity_spec(),
    {
        self.max_size
    }

    /// The root node address: `(height, 0)`.
    pub fn root(&self) -> (r: (usize, usize))
        ensures
            r.0 as nat == self.height_spec(),
            r.1 == 0,
    {
        (self.current_level, 0)
    }

    /// An empty tree with no capacity: every query returns nothing and
    /// `add` always fails.
    pub fn new_empty() -> (r: SegRTree)
        ensures
            r.wf(),
            r.size() == 0,
            r.capacity_spec() == 0,
            r.deg() == 2,
            r.height_spec() == 0,
    {
        SegRTree::new(2, 0)
    }

    /// An empty tree sized for `max_size` leaves at branching factor
    /// `degree` (clamped up to 2), to be filled by `add`.
    pub fn new(degree: usize, max_size: usize) -> (r: SegRTree)
        requires
            degree <= MAX_DEGREE,
            max_size <= MAX_CAPACITY,
        ensures
            r.wf(),
            r.size() == 0,
            r.capacity_spec() == max_size as int,
            r.deg() == if degree >= 2 {
                degree as int
            } else {
                2int
            },
            r.height_spec() == 0,
            r.leaves() == Seq::<Rectangle>::empty(),
    {
        let degree = if degree < 2 {
            2
        } else {
            degree
        };
        let level_indices = calculate_level_indices(degree, max_size);
        let tree_size = level_indices[level_indices.len() - 1] + 1;
        let mut tree: Vec<Rectangle> = Vec::new();
        while tree.len() < tree_size
            invariant
                tree_size <= 0x4000_0001,
                tree@.len() <= tree_size,
                forall|i: int| 0 <= i < tree@.len() ==> tree@[i] == Rectangle::spec_empty(),
            decreases tree_size - tree@.len(),
        {
            tree.push(Rectangle::new_empty());
        }
        let r = SegRTree {
            degree,
            max_size,
            current_size: 0,
            current_level: 0,
            level_indices,
            tree,
        };
        proof {
            vstd::arithmetic::power::lemma_pow0(degree as int);
            lemma_capacity_fits(r.deg(), r.capacity_spec(), r.level_indices@);
            assert(r.leaves() =~= Seq::<Rectangle>::empty());
            assert forall|l: nat, o: int|
                l <= r.height_spec() && 0 <= o < r.nslots(l) implies #[trigger] r.node_rect(l, o)
                == span_union(r.leaves(), r.span_lo(l, o), r.span_hi(l, o)) by {
                lemma_slot_in_table(r.deg(), r.capacity_spec(), r.level_indices@, l, o);
                lemma_pow_positive(r.deg(), l);
                vstd::arithmetic::mul::lemma_mul_nonnegative(o, pow(r.deg(), l));
            }
            assert forall|l: nat, o: int|
                r.height_spec() < l < r.num_levels() && 0 <= o < r.nslots(l)
                implies #[trigger] r.node_rect(l, o) == Rectangle::spec_empty() by {
                lemma_slot_in_table(r.deg(), r.capacity_spec(), r.level_indices@, l, o);
            }
        }
        r
    }

    /// The rectangle stored for node `(level, offset)`.
    pub fn get_rectangle(&self, level: usize, offset: usize) -> (r: Rectangle)
        requires
            self.wf(),
            (level as int) < self.num_levels(),
            (offset as int) < self.nslots(level as nat),
        ensures
            r == self.node_rect(level as nat, offset as int),
            r.wf(),
    {
        proof {
            self.lemma_slot_bounds(level as nat, offset as int);
        }
        self.tree[self.level_indices[level] + offset]
    }

    /// The inclusive-exclusive leaf span of node `(level, offset)`:
    /// `offset` consecutive subtree widths in, truncated at the leaf
    /// count.
    pub fn get_low_high(&self, level: usize, offset: usize) -> (r: (usize, usize))
        requires
            self.wf(),
            level as nat <= self.height_spec(),
            (offset as int) < level_size(self.deg(), self.capacity_spec(), level as nat),
        ensures
            r.0 as int == offset * pow(self.deg(), level as nat),
            r.1 as int == imin((offset + 1) * pow(self.deg(), level as nat), self.size()),
    {
        let width = self.pow_of_degree(level);
        proof {
            let d = self.deg();
            let w = pow(d, level as nat);
            let o = offset as int;
            lemma_real_span_nonempty(d, self.capacity_spec(), level as nat, o);
            vstd::arithmetic::mul::lemma_mul_is_distributive_add_other_way(w, o, 1);
            vstd::arithmetic::mul::lemma_mul_nonnegative(o, w);
            lemma_pow_positive(d, level as nat);
            assert((o + 1) * w == o * w + w);
        }
        let low = width * offset;
        let cand = low + width;
        let high = if cand <= self.current_size {
            cand
        } else {
            self.current_size
        };
        (low, high)
    }

    /// `degree` to the power `level`, which stays small because the
    /// height is logarithmic in the capacity.
    fn pow_of_degree(&self, level: usize) -> (r: usize)
        requires
            self.wf(),
            level as nat <= self.height_spec(),
        ensures
            r as int == pow(self.deg(), level as nat),
            r as int <= 0x1000_0000,
    {
        proof {
            self.lemma_pow_height_bound();
            vstd::arithmetic::power::lemma_pow0(self.deg());
        }
        let mut i: usize = 0;
        let mut acc: usize = 1;
        while i < level
            invariant
                self.wf(),
                i <= level,
                level as nat <= self.height_spec(),
                acc as int == pow(self.deg(), i as nat),
                acc as int <= 0x1000_0000,
            decreases level - i,
        {
            proof {
                self.lemma_pow_height_bound();
                lemma_pow_mono_le(self.deg(), (i + 1) as nat, self.height_spec());
                lemma_pow_step(self.deg(), (i + 1) as nat);
                lemma_pow_positive(self.deg(), i as nat);
            }
            acc = acc * self.degree;
            i += 1;
        }
        proof {
            lemma_pow_mono_le(self.deg(), level as nat, self.height_spec());
        }
        acc
    }

    /// The subtree width at the root level is bounded by degree times
    /// the capacity.
    proof fn lemma_pow_height_bound(self)
        requires
            self.wf(),
        ensures
            pow(self.deg(), self.height_spec()) <= 0x1000_0000,
            forall|l: nat|
                l <= self.height_spec() ==> #[trigger] pow(self.deg(), l) <= 0x1000_0000,
    {
        let d = self.deg();
        let h = self.height_spec();
        if h == 0 {
            vstd::arithmetic::power::lemma_pow0(d);
        } else {
            let hp = (h - 1) as nat;
            lemma_pow_step(d, h);
            lemma_pow_positive(d, hp);
            assert(pow(d, hp) < self.size());
            assert(pow(d, h) == pow(d, hp) * d);
            vstd::arithmetic::mul::lemma_mul_upper_bound(pow(d, hp), 0x20_0000, d, 128);
        }
        assert forall|l: nat| l <= h implies #[trigger] pow(d, l) <= 0x1000_0000 by {
            lemma_pow_mono_le(d, l, h);
        }
    }
}


impl SegRTree {
    /// Insert the rectangle of the next segment, walking up from leaf
    /// slot `current_size` and widening every ancestor so that it again
    /// covers exactly the leaves below it.  Fails once the tree holds
    /// `capacity` leaves.
    pub fn add(&mut self, rect: Rectangle) -> (r: Result<(), TreeError>)
        requires
            old(self).wf(),
            rect.wf(),
        ensures
            final(self).wf(),
            old(self).size() == old(self).capacity_spec() ==> r is Err && *final(self) == *old(
                self,
            ),
            old(self).size() < old(self).capacity_spec() ==> {
                &&& r is Ok
                &&& final(self).size() == old(self).size() + 1
                &&& final(self).leaves() == old(self).leaves().push(rect)
                &&& final(self).deg() == old(self).deg()
                &&& final(self).capacity_spec() == old(self).capacity_spec()
            },
    {
        if self.current_size >= self.max_size {
            return Err(TreeError::CapacityExceeded);
        }
        let ghost pre = *self;
        let ghost di = self.deg();
        let ghost m = self.capacity_spec();
        let ghost k = self.size();
        let ghost lvnew = pre.leaves().push(rect);
        proof {
            assert forall|j: int| 0 <= j < k + 1 implies (#[trigger] lvnew[j]).wf() by {
                if j < k {
                    assert(pre.tree@[j].wf());
                }
            }
            vstd::arithmetic::power::lemma_pow0(di);
            lemma_div_by_one(k);
        }
        let mut level: usize = 0;
        let mut offset: usize = self.current_size;
        let mut r = rect;
        let ghost mut glo: int = k;
        proof {
            assert(r =~= span_union(lvnew, k, k + 1)) by {
                assert(span_union(lvnew, k, k) == Rectangle::spec_empty());
                assert(lvnew[k] == rect);
            }
        }
        while offset != 0
            invariant
                pre.wf(),
                rect.wf(),
                di == pre.deg(),
                m == pre.capacity_spec(),
                k == pre.size(),
                0 <= k < m,
                lvnew == pre.leaves().push(rect),
                forall|j: int| 0 <= j < k + 1 ==> (#[trigger] lvnew[j]).wf(),
                self.degree == pre.degree,
                self.max_size == pre.max_size,
                self.current_size == pre.current_size,
                self.current_level == pre.current_level,
                self.level_indices == pre.level_indices,
                self.tree@.len() == pre.tree@.len(),
                offset as int == k / pow(di, level as nat),
                level as nat >= 1 ==> k / pow(di, (level - 1) as nat) >= 1,
                (level as nat) <= pre.height_spec() + 1,
                level as nat == pre.height_spec() + 1 ==> offset == 0,
                (level as int) < pre.num_levels(),
                r.wf(),
                r == span_union(lvnew, glo, k + 1),
                0 <= glo <= k,
                (offset as int) * pow(di, level as nat) <= glo,
                level as nat == pre.height_spec() + 1 ==> glo == 0,
                forall|i: int| 0 <= i < self.tree@.len() ==> (#[trigger] self.tree@[i]).wf(),
                forall|lq: nat, oq: int|
                    lq < pre.num_levels() && 0 <= oq < pre.nslots(lq) && (lq < level as nat) && oq
                        == k / pow(di, lq) ==> #[trigger] self.node_rect(lq, oq) == span_union(
                        lvnew,
                        oq * pow(di, lq),
                        k + 1,
                    ),
                forall|lq: nat, oq: int|
                    lq < pre.num_levels() && 0 <= oq < pre.nslots(lq) && (lq >= level as nat || oq
                        != k / pow(di, lq)) ==> #[trigger] self.node_rect(lq, oq) == pre.node_rect(
                        lq,
                        oq,
                    ),
            decreases offset,
        {
            let ghost l = level as nat;
            let ghost o = offset as int;
            proof {
                lemma_pow_positive(di, l);
                lemma_div_ge_one(k, pow(di, l));
                if l > pre.height_spec() {
                    assert(offset == 0);
                    assert(false);
                }
                lemma_offset_in_level(di, m, k, l);
                lemma_nslots_size(pre, l);
                pre.lemma_slot_bounds(l, o);
                lemma_offset_span(di, k, l);
                vstd::arithmetic::mul::lemma_mul_nonnegative(o, pow(di, l));
            }
            let index = self.level_indices[level] + offset;
            proof {
                assert(level_start(di, m, l) == pre.level_indices@[l as int]);
                assert(index as int == pre.start(l) + o);
            }
            // the slot still holds the union of its old leaves
            proof {
                assert(self.node_rect(l, o) == pre.node_rect(l, o));
                assert(pre.span_lo(l, o) == o * pow(di, l));
                assert(pre.span_hi(l, o) == k);
                lemma_span_union_frame(pre.leaves(), lvnew, o * pow(di, l), k);
                lemma_span_union_join(lvnew, o * pow(di, l), glo, k);
                lemma_merge_comm(r, self.node_rect(l, o));
                lemma_span_union_wf(lvnew, o * pow(di, l), k);
            }
            let ghost before = *self;
            let slot_value = self.tree[index];
            let merged = r.merge(&slot_value);
            self.tree.set(index, merged);
            r = merged;
            proof {
                glo = o * pow(di, l);
                assert(r == span_union(lvnew, glo, k + 1));
                assert(self.tree@ == before.tree@.update(index as int, merged));
                assert forall|lq: nat, oq: int|
                    lq < pre.num_levels() && 0 <= oq < pre.nslots(lq) && (lq >= l + 1 || oq != k
                        / pow(di, lq)) implies #[trigger] self.node_rect(lq, oq) == pre.node_rect(
                    lq,
                    oq,
                ) by {
                    pre.lemma_slot_bounds(lq, oq);
                    assert(before.node_rect(lq, oq) == pre.node_rect(lq, oq));
                    if (lq, oq) != (l, o) {
                        lemma_slot_distinct(pre, lq, oq, l, o);
                        assert(pre.start(lq) + oq != index as int);
                        assert(self.node_rect(lq, oq) == before.node_rect(lq, oq));
                    } else {
                        assert(false);
                    }
                }
                assert forall|lq: nat, oq: int|
                    lq < pre.num_levels() && 0 <= oq < pre.nslots(lq) && (lq < l + 1) && oq == k
                        / pow(di, lq) implies #[trigger] self.node_rect(lq, oq) == span_union(
                    lvnew,
                    oq * pow(di, lq),
                    k + 1,
                ) by {
                    pre.lemma_slot_bounds(lq, oq);
                    if lq < l {
                        assert(before.node_rect(lq, oq) == span_union(
                            lvnew,
                            oq * pow(di, lq),
                            k + 1,
                        ));
                        lemma_slot_distinct(pre, lq, oq, l, o);
                        assert(self.node_rect(lq, oq) == before.node_rect(lq, oq));
                    } else {
                        assert(lq == l && oq == o);
                        assert(self.node_rect(l, o) == merged);
                    }
                }
            }
            if offset == 1 {
                proof {
                    vstd::arithmetic::mul::lemma_mul_basics(pow(di, l));
                    assert(glo == pow(di, l));
                    assert(pow(di, l) <= k);
                    assert(0 < pre.nslots(l));
                    pre.lemma_slot_bounds(l, 0);
                    lemma_slot_distinct(pre, l, 0, l, o);
                    assert(level_start(di, m, l) == pre.level_indices@[l as int]);
                    assert(self.node_rect(l, 0) == pre.node_rect(l, 0));
                    assert(pre.span_lo(l, 0) == 0);
                    assert(pre.span_hi(l, 0) == pow(di, l));
                    lemma_span_union_frame(pre.leaves(), lvnew, 0, pow(di, l));
                    lemma_span_union_split(lvnew, 0, pow(di, l), k + 1);
                    lemma_merge_comm(r, self.node_rect(l, 0));
                }
                let index0 = self.level_indices[level];
                proof {
                    assert(index0 as int == pre.start(l));
                    assert(self.tree@[index0 as int] == self.node_rect(l, 0));
                }
                let sibling = self.tree[index0];
                r = r.merge(&sibling);
                proof {
                    glo = 0;
                    assert(r == span_union(lvnew, 0, k + 1));
                }
            }
            proof {
                lemma_offset_step(di, k, (l + 1) as nat);
                lemma_pow_step(di, (l + 1) as nat);
                // the next level stays inside the table
                lemma_padding_span_empty(di, m, (pre.num_levels() - 1) as nat, 1);
                vstd::arithmetic::mul::lemma_mul_basics(pow(di, (pre.num_levels() - 1) as nat));
                if level as int + 1 >= pre.num_levels() {
                    lemma_pow_mono_le(di, (pre.num_levels() - 1) as nat, (level + 1) as nat);
                    lemma_div_small(k, pow(di, (level + 1) as nat));
                    assert(false);
                }
                if level as nat + 1 > pre.height_spec() + 1 {
                    assert(false);
                }
                if level as nat + 1 == pre.height_spec() + 1 {
                    // the walk only enters the fresh level after absorbing
                    // everything: the offset here was one
                    if offset as int >= 2 {
                        vstd::arithmetic::mul::lemma_mul_inequality(2, offset as int, pow(di, l));
                        assert(2 * pow(di, l) <= glo);
                        assert(pow(di, pre.height_spec()) >= k);
                        lemma_pow_mono_le(di, l, pre.height_spec());
                        assert(false);
                    }
                }
                // offset/degree relates to the next level's offset
                vstd::arithmetic::mul::lemma_mul_nonnegative(
                    offset as int / di,
                    pow(di, (l + 1) as nat),
                );
                lemma_div_mul_le(offset as int, di, pow(di, l));
                if offset == 1 {
                    lemma_div_small(1, di);
                }
                vstd::arithmetic::div_mod::lemma_div_is_strictly_smaller(offset as int, di);
                assert(pow(di, (l + 1) as nat) == pow(di, l) * di);
                if offset == 1 {
                    assert(offset as int / di == 0);
                    vstd::arithmetic::mul::lemma_mul_basics(pow(di, (l + 1) as nat));
                    assert((offset as int / di) * pow(di, (l + 1) as nat) == 0);
                    assert(glo == 0);
                } else {
                    assert(glo == o * pow(di, l));
                    assert((offset as int / di) * (pow(di, l) * di) <= o * pow(di, l));
                }
                assert((offset as int / di) * pow(di, (l + 1) as nat) <= glo);
            }
            offset = offset / self.degree;
            level = level + 1;
        }
        let ghost lfin = level as nat;
        proof {
            lemma_pow_positive(di, lfin);
            lemma_nslots_size(pre, lfin);
            pre.lemma_slot_bounds(lfin, 0);
            vstd::arithmetic::mul::lemma_mul_basics(pow(di, lfin));
        }
        let index = self.level_indices[level];
        proof {
            assert(level_start(di, m, lfin) == pre.level_indices@[lfin as int]);
            assert(index as int == pre.start(lfin) + 0);
            assert(self.node_rect(lfin, 0) == pre.node_rect(lfin, 0));
            if lfin <= pre.height_spec() {
                assert(pre.node_rect(lfin, 0) == span_union(
                    pre.leaves(),
                    pre.span_lo(lfin, 0),
                    pre.span_hi(lfin, 0),
                ));
                assert(pre.span_lo(lfin, 0) == 0);
                assert(pre.span_hi(lfin, 0) == k) by {
                    lemma_div_small_converse(k, pow(di, lfin));
                }
                lemma_span_union_frame(pre.leaves(), lvnew, 0, k);
            } else {
                assert(pre.node_rect(lfin, 0) == Rectangle::spec_empty());
                assert(glo == 0);
                assert(span_union(lvnew, 0, k) == span_union(lvnew, 0, k));
            }
            lemma_span_union_join(lvnew, 0, glo, k);
            lemma_merge_comm(r, self.node_rect(lfin, 0));
            lemma_span_union_wf(lvnew, 0, k);
            lemma_merge_le(self.node_rect(lfin, 0), r);
        }
        let ghost before = *self;
        let slot_value = self.tree[index];
        let merged = r.merge(&slot_value);
        self.tree.set(index, merged);
        self.current_level = level;
        self.current_size = self.current_size + 1;
        proof {
            assert(self.tree@ == before.tree@.update(index as int, merged));
            if lfin > pre.height_spec() {
                // merging into an untouched empty slot keeps the span
                lemma_merge_comm(span_union(lvnew, 0, k + 1), Rectangle::spec_empty());
            }
            assert(self.node_rect(lfin, 0) == span_union(lvnew, 0, k + 1));
            assert forall|lq: nat, oq: int|
                lq < pre.num_levels() && 0 <= oq < pre.nslots(lq) && (lq > lfin || oq != k / pow(
                    di,
                    lq,
                )) implies #[trigger] self.node_rect(lq, oq) == pre.node_rect(lq, oq) by {
                pre.lemma_slot_bounds(lq, oq);
                assert(before.node_rect(lq, oq) == pre.node_rect(lq, oq));
                if (lq, oq) != (lfin, 0int) {
                    lemma_slot_distinct(pre, lq, oq, lfin, 0);
                    assert(self.node_rect(lq, oq) == before.node_rect(lq, oq));
                } else {
                    assert(false);
                }
            }
            assert forall|lq: nat, oq: int|
                lq < pre.num_levels() && 0 <= oq < pre.nslots(lq) && (lq <= lfin) && oq == k / pow(
                    di,
                    lq,
                ) implies #[trigger] self.node_rect(lq, oq) == span_union(
                lvnew,
                oq * pow(di, lq),
                k + 1,
            ) by {
                pre.lemma_slot_bounds(lq, oq);
                if lq < lfin {
                    assert(before.node_rect(lq, oq) == span_union(
                        lvnew,
                        oq * pow(di, lq),
                        k + 1,
                    ));
                    lemma_slot_distinct(pre, lq, oq, lfin, 0);
                    assert(self.node_rect(lq, oq) == before.node_rect(lq, oq));
                } else {
                    assert(lq == lfin && oq == 0);
                    vstd::arithmetic::mul::lemma_mul_basics(pow(di, lfin));
                    assert(self.node_rect(lfin, 0) == merged);
                }
            }
        }
        proof {
            lemma_add_restores_wf(pre, *self, rect, lfin, k);
        }
        Ok(())
    }
}

/// Division cannot reach one unless the divisor fits the dividend.
pub proof fn lemma_div_ge_one(k: int, p: int)
    requires
        0 <= k,
        1 <= p,
    ensures
        k / p >= 1 ==> p <= k,
{
    vstd::arithmetic::div_mod::lemma_fundamental_div_mod(k, p);
    vstd::arithmetic::div_mod::lemma_mod_division_less_than_divisor(k, p);
    vstd::arithmetic::div_mod::lemma_div_pos_is_pos(k, p);
    if k / p >= 1 {
        vstd::arithmetic::mul::lemma_mul_inequality(1, k / p, p);
        vstd::arithmetic::mul::lemma_mul_is_commutative(k / p, p);
    }
}

/// A dividend below the divisor divides to zero.
pub proof fn lemma_div_small(k: int, p: int)
    requires
        0 <= k < p,
    ensures
        k / p == 0,
{
    vstd::arithmetic::div_mod::lemma_basic_div(k, p);
}

/// A zero quotient puts the dividend below the divisor.
pub proof fn lemma_div_small_converse(k: int, p: int)
    requires
        0 <= k,
        1 <= p,
        k / p == 0,
    ensures
        k < p,
{
    vstd::arithmetic::div_mod::lemma_fundamental_div_mod(k, p);
    vstd::arithmetic::div_mod::lemma_mod_division_less_than_divisor(k, p);
    vstd::arithmetic::mul::lemma_mul_basics(p);
}

/// Walking an offset one level up never widens its span start.
pub proof fn lemma_div_mul_le(o: int, d: int, w: int)
    requires
        0 <= o,
        2 <= d,
        1 <= w,
    ensures
        (o / d) * (w * d) <= o * w,
{
    vstd::arithmetic::div_mod::lemma_fundamental_div_mod(o, d);
    vstd::arithmetic::div_mod::lemma_mod_division_less_than_divisor(o, d);
    vstd::arithmetic::div_mod::lemma_div_pos_is_pos(o, d);
    let q = o / d;
    assert((q * (w * d) <= o * w) || false) by (nonlinear_arith)
        requires
            o == d * q + o % d,
            0 <= o % d,
            0 <= q,
            1 <= w,
    {
    }
}

/// Distinct node addresses use distinct flat slots.
pub proof fn lemma_slot_distinct(t: SegRTree, l1: nat, o1: int, l2: nat, o2: int)
    requires
        t.wf(),
        l1 < t.num_levels(),
        l2 < t.num_levels(),
        0 <= o1 < t.nslots(l1),
        0 <= o2 < t.nslots(l2),
        (l1, o1) != (l2, o2),
    ensures
        t.start(l1) + o1 != t.start(l2) + o2,
{
    if l1 < l2 {
        lemma_start_monotone_table(t.deg(), t.capacity_spec(), (l1 + 1) as nat, l2);
    } else if l2 < l1 {
        lemma_start_monotone_table(t.deg(), t.capacity_spec(), (l2 + 1) as nat, l1);
    }
}

/// After the walk of `add` every slot again matches its span.
proof fn lemma_add_restores_wf(pre: SegRTree, post: SegRTree, rect: Rectangle, lfin: nat, k: int)
    requires
        pre.wf(),
        rect.wf(),
        k == pre.size(),
        0 <= k < pre.capacity_spec(),
        post.deg() == pre.deg(),
        post.capacity_spec() == pre.capacity_spec(),
        post.num_levels() == pre.num_levels(),
        post.size() == k + 1,
        post.height_spec() == lfin,
        post.tree@.len() == pre.tree@.len(),
        post.level_indices@ == pre.level_indices@,
        forall|l: nat| l < post.num_levels() ==> #[trigger] post.start(l) == pre.start(l),
        forall|l: nat| l < post.num_levels() ==> #[trigger] post.nslots(l) == pre.nslots(l),
        // facts carried out of the walk
        k / pow(pre.deg(), lfin) == 0,
        lfin <= pre.height_spec() + 1,
        lfin >= 1 ==> k / pow(pre.deg(), (lfin - 1) as nat) >= 1,
        (lfin as int) < pre.num_levels(),
        forall|i: int| 0 <= i < post.tree@.len() ==> (#[trigger] post.tree@[i]).wf(),
        forall|lq: nat, oq: int|
            lq < pre.num_levels() && 0 <= oq < pre.nslots(lq) && (lq <= lfin) && oq == k / pow(
                pre.deg(),
                lq,
            ) ==> #[trigger] post.node_rect(lq, oq) == span_union(
                pre.leaves().push(rect),
                oq * pow(pre.deg(), lq),
                k + 1,
            ),
        forall|lq: nat, oq: int|
            lq < pre.num_levels() && 0 <= oq < pre.nslots(lq) && (lq > lfin || oq != k / pow(
                pre.deg(),
                lq,
            )) ==> #[trigger] post.node_rect(lq, oq) == pre.node_rect(lq, oq),
    ensures
        post.wf(),
        post.leaves() == pre.leaves().push(rect),
{
    let d = pre.deg();
    let m = pre.capacity_spec();
    let lvnew = pre.leaves().push(rect);
    vstd::arithmetic::power::lemma_pow0(d);
    lemma_div_by_one(k);
    // the new leaf row is the old one plus the inserted rectangle
    assert forall|i: int| 0 <= i < k + 1 implies post.tree@[i] == lvnew[i] by {
        lemma_nslots_size(pre, 0);
        if i < k {
            assert(post.node_rect(0, i) == pre.node_rect(0, i));
            assert(pre.tree@[i] == pre.leaves()[i]);
        } else {
            assert(post.node_rect(0, k) == span_union(lvnew, k, k + 1));
            assert(span_union(lvnew, k, k) == Rectangle::spec_empty());
        }
    }
    assert(post.leaves() =~= lvnew);
    assert forall|j: int| 0 <= j < k + 1 implies (#[trigger] lvnew[j]).wf() by {
        if j < k {
            assert(pre.tree@[j].wf());
        }
    }
    // height bookkeeping
    lemma_pow_positive(d, lfin);
    lemma_div_small_converse(k, pow(d, lfin));
    if lfin >= 1 {
        lemma_pow_positive(d, (lfin - 1) as nat);
        lemma_div_ge_one(k, pow(d, (lfin - 1) as nat));
    }
    if pre.height_spec() >= 1 && lfin < pre.height_spec() {
        lemma_pow_mono_le(d, lfin, (pre.height_spec() - 1) as nat);
        assert(pow(d, lfin) <= pow(d, (pre.height_spec() - 1) as nat));
        assert(false);
    }
    assert(lfin >= pre.height_spec());
    // every slot matches its (new) span
    assert forall|l: nat, o: int|
        l <= post.height_spec() && 0 <= o < post.nslots(l) implies #[trigger] post.node_rect(l, o)
        == span_union(post.leaves(), post.span_lo(l, o), post.span_hi(l, o)) by {
        lemma_node_span_after_add(pre, post, rect, lfin, k, l, o);
    }
    assert forall|l: nat, o: int|
        post.height_spec() < l < post.num_levels() && 0 <= o < post.nslots(l)
        implies #[trigger] post.node_rect(l, o) == Rectangle::spec_empty() by {
        lemma_node_empty_after_add(pre, post, rect, lfin, k, l, o);
    }
}

/// A filled slot after `add` equals the union over its clamped span.
proof fn lemma_node_span_after_add(
    pre: SegRTree,
    post: SegRTree,
    rect: Rectangle,
    lfin: nat,
    k: int,
    l: nat,
    o: int,
)
    requires
        pre.wf(),
        rect.wf(),
        k == pre.size(),
        0 <= k < pre.capacity_spec(),
        post.deg() == pre.deg(),
        post.capacity_spec() == pre.capacity_spec(),
        post.num_levels() == pre.num_levels(),
        post.size() == k + 1,
        post.height_spec() == lfin,
        post.tree@.len() == pre.tree@.len(),
        post.leaves() == pre.leaves().push(rect),
        forall|lq: nat| lq < post.num_levels() ==> #[trigger] post.start(lq) == pre.start(lq),
        forall|lq: nat| lq < post.num_levels() ==> #[trigger] post.nslots(lq) == pre.nslots(lq),
        k / pow(pre.deg(), lfin) == 0,
        lfin <= pre.height_spec() + 1,
        (lfin as int) < pre.num_levels(),
        forall|lq: nat, oq: int|
            lq < pre.num_levels() && 0 <= oq < pre.nslots(lq) && (lq <= lfin) && oq == k / pow(
                pre.deg(),
                lq,
            ) ==> #[trigger] post.node_rect(lq, oq) == span_union(
                pre.leaves().push(rect),
                oq * pow(pre.deg(), lq),
                k + 1,
            ),
        forall|lq: nat, oq: int|
            lq < pre.num_levels() && 0 <= oq < pre.nslots(lq) && (lq > lfin || oq != k / pow(
                pre.deg(),
                lq,
            )) ==> #[trigger] post.node_rect(lq, oq) == pre.node_rect(lq, oq),
        l <= lfin,
        0 <= o < post.nslots(l),
    ensures
        post.node_rect(l, o) == span_union(post.leaves(), post.span_lo(l, o), post.span_hi(l, o)),
{
    let d = pre.deg();
    let m = pre.capacity_spec();
    let lvnew = pre.leaves().push(rect);
    let w = pow(d, l);
    lemma_pow_positive(d, l);
    vstd::arithmetic::mul::lemma_mul_nonnegative(o, w);
    vstd::arithmetic::mul::lemma_mul_is_distributive_add_other_way(w, o, 1);
    assert forall|j: int| 0 <= j < k + 1 implies (#[trigger] lvnew[j]).wf() by {
        if j < k {
            assert(pre.tree@[j].wf());
        }
    }
    if o == k / pow(d, l) {
        // the walk rebuilt this slot
        lemma_offset_span(d, k, l);
        assert(post.node_rect(l, o) == span_union(lvnew, o * w, k + 1));
        assert(post.span_lo(l, o) == o * w);
        assert(post.span_hi(l, o) == k + 1);
    } else {
        assert(post.node_rect(l, o) == pre.node_rect(l, o));
        lemma_offset_span(d, k, l);
        if o < k / pow(d, l) {
            // entirely below the new leaf
            vstd::arithmetic::mul::lemma_mul_inequality(o + 1, k / pow(d, l), w);
            assert((o + 1) * w <= (k / pow(d, l)) * w);
            if l <= pre.height_spec() {
                assert(pre.node_rect(l, o) == span_union(
                    pre.leaves(),
                    pre.span_lo(l, o),
                    pre.span_hi(l, o),
                ));
                lemma_span_union_frame(
                    pre.leaves(),
                    lvnew,
                    pre.span_lo(l, o),
                    pre.span_hi(l, o),
                );
            } else {
                // a level above the old root with leaves below the new
                // leaf cannot exist
                assert(pre.height_spec() < l <= lfin);
                assert(lfin == pre.height_spec() + 1);
                assert(l == lfin);
                assert(k / pow(d, l) == 0);
                assert(false);
            }
        } else {
            // entirely above the new leaf: both spans are empty
            vstd::arithmetic::mul::lemma_mul_inequality(k / pow(d, l) + 1, o, w);
            assert((k / pow(d, l) + 1) * w <= o * w);
            if l <= pre.height_spec() {
                assert(pre.node_rect(l, o) == span_union(
                    pre.leaves(),
                    pre.span_lo(l, o),
                    pre.span_hi(l, o),
                ));
                assert(pre.span_lo(l, o) == k);
                assert(pre.span_hi(l, o) == k);
                assert(post.span_lo(l, o) == k + 1);
                assert(post.span_hi(l, o) == k + 1);
            } else {
                assert(l == lfin && lfin == pre.height_spec() + 1);
                assert(pre.node_rect(l, o) == Rectangle::spec_empty());
                assert(post.span_lo(l, o) == k + 1);
                assert(post.span_hi(l, o) == k + 1);
            }
        }
    }
}

/// A slot above the new root is still empty after `add`.
proof fn lemma_node_empty_after_add(
    pre: SegRTree,
    post: SegRTree,
    rect: Rectangle,
    lfin: nat,
    k: int,
    l: nat,
    o: int,
)
    requires
        pre.wf(),
        rect.wf(),
        k == pre.size(),
        0 <= k < pre.capacity_spec(),
        post.deg() == pre.deg(),
        post.capacity_spec() == pre.capacity_spec(),
        post.num_levels() == pre.num_levels(),
        post.size() == k + 1,
        post.height_spec() == lfin,
        post.tree@.len() == pre.tree@.len(),
        forall|lq: nat| lq < post.num_levels() ==> #[trigger] post.start(lq) == pre.start(lq),
        forall|lq: nat| lq < post.num_levels() ==> #[trigger] post.nslots(lq) == pre.nslots(lq),
        lfin <= pre.height_spec() + 1,
        lfin >= pre.height_spec(),
        (lfin as int) < pre.num_levels(),
        forall|lq: nat, oq: int|
            lq < pre.num_levels() && 0 <= oq < pre.nslots(lq) && (lq > lfin || oq != k / pow(
                pre.deg(),
                lq,
            )) ==> #[trigger] post.node_rect(lq, oq) == pre.node_rect(lq, oq),
        lfin < l,
        (l as int) < post.num_levels(),
        0 <= o < post.nslots(l),
    ensures
        post.node_rect(l, o) == Rectangle::spec_empty(),
{
    assert(l > pre.height_spec());
    assert(post.node_rect(l, o) == pre.node_rect(l, o));
}


/// What a single-tree query looks for.
#[derive(Clone, Copy)]
pub enum QueryKind {
    /// Leaves whose rectangle intersects the query rectangle.
    InRect(Rectangle),
    /// Leaves whose rectangle contains the query point.
    AtPoint(Coordinate),
}

/// The predicate a query applies to node rectangles.
pub open spec fn node_pred(kind: QueryKind, r: Rectangle) -> bool {
    match kind {
        QueryKind::InRect(q) => r.spec_intersects(q),
        QueryKind::AtPoint(p) => r.spec_contains_pt(p),
    }
}

/// The leaf indices in `[lo, hi)` whose rectangle satisfies the query,
/// in ascending order.
pub open spec fn matching(t: SegRTree, kind: QueryKind, lo: int, hi: int) -> Seq<usize>
    decreases hi - lo,
{
    if lo >= hi {
        Seq::empty()
    } else if node_pred(kind, t.leaf_rect(hi - 1)) {
        matching(t, kind, lo, hi - 1).push((hi - 1) as usize)
    } else {
        matching(t, kind, lo, hi - 1)
    }
}

/// Membership in a matching sequence is exactly the predicate.
pub proof fn lemma_matching_membership(t: SegRTree, kind: QueryKind, lo: int, hi: int)
    requires
        0 <= lo,
        hi <= usize::MAX,
    ensures
        forall|j: int|
            0 <= j < matching(t, kind, lo, hi).len() ==> lo <= #[trigger] matching(
                t,
                kind,
                lo,
                hi,
            )[j] < hi && node_pred(kind, t.leaf_rect(matching(t, kind, lo, hi)[j] as int)),
        forall|i: int|
            lo <= i < hi && node_pred(kind, t.leaf_rect(i)) ==> matching(
                t,
                kind,
                lo,
                hi,
            ).contains(i as usize),
        matching(t, kind, lo, hi).no_duplicates(),
        forall|j1: int, j2: int|
            0 <= j1 < j2 < matching(t, kind, lo, hi).len() ==> matching(t, kind, lo, hi)[j1]
                < matching(t, kind, lo, hi)[j2],
    decreases hi - lo,
{
    if lo < hi {
        lemma_matching_membership(t, kind, lo, hi - 1);
        let prev = matching(t, kind, lo, hi - 1);
        let cur = matching(t, kind, lo, hi);
        if node_pred(kind, t.leaf_rect(hi - 1)) {
            assert(cur == prev.push((hi - 1) as usize));
            assert forall|j: int|
                0 <= j < cur.len() implies lo <= #[trigger] cur[j] < hi && node_pred(
                kind,
                t.leaf_rect(cur[j] as int),
            ) by {
                if j < prev.len() {
                    assert(cur[j] == prev[j]);
                } else {
                    assert(cur[j] == (hi - 1) as usize);
                }
            }
            assert forall|j1: int, j2: int| 0 <= j1 < j2 < cur.len() implies cur[j1]
                < cur[j2] by {
                if j2 < prev.len() {
                    assert(cur[j1] == prev[j1] && cur[j2] == prev[j2]);
                } else {
                    assert(cur[j2] == (hi - 1) as usize);
                    assert(cur[j1] == prev[j1]);
                    assert(prev[j1] < hi - 1);
                }
            }
            assert forall|j1: int, j2: int|
                0 <= j1 < cur.len() && 0 <= j2 < cur.len() && j1 != j2 implies cur[j1]
                != cur[j2] by {
                if j1 < j2 {
                    assert(cur[j1] < cur[j2]);
                } else {
                    assert(cur[j2] < cur[j1]);
                }
            }
        } else {
            assert(cur == prev);
        }
        assert forall|i: int|
            lo <= i < hi && node_pred(kind, t.leaf_rect(i)) implies cur.contains(i as usize) by {
            if i < hi - 1 {
                assert(prev.contains(i as usize));
                let j = choose|j: int| 0 <= j < prev.len() && prev[j] == i as usize;
                assert(cur[j] == i as usize);
            } else {
                assert(cur[cur.len() - 1] == i as usize);
            }
        }
    }
}

/// A matching over adjacent ranges splits into their concatenation.
pub proof fn lemma_matching_split(t: SegRTree, kind: QueryKind, lo: int, mid: int, hi: int)
    requires
        lo <= mid <= hi,
    ensures
        matching(t, kind, lo, hi) == matching(t, kind, lo, mid) + matching(t, kind, mid, hi),
    decreases hi - mid,
{
    if mid == hi {
        assert(matching(t, kind, mid, hi) == Seq::<usize>::empty());
        assert(matching(t, kind, lo, hi) =~= matching(t, kind, lo, mid) + matching(
            t,
            kind,
            mid,
            hi,
        ));
    } else {
        lemma_matching_split(t, kind, lo, mid, hi - 1);
        assert(matching(t, kind, lo, hi) =~= matching(t, kind, lo, mid) + matching(
            t,
            kind,
            mid,
            hi,
        ));
    }
}

/// A range with no matching leaf contributes nothing.
pub proof fn lemma_matching_none(t: SegRTree, kind: QueryKind, lo: int, hi: int)
    requires
        forall|i: int| lo <= i < hi ==> !node_pred(kind, t.leaf_rect(i)),
    ensures
        matching(t, kind, lo, hi) == Seq::<usize>::empty(),
    decreases hi - lo,
{
    if lo < hi {
        lemma_matching_none(t, kind, lo, hi - 1);
    }
}

impl SegRTree {
    /// All leaves inside the subtree at `(level, offset)` fail the
    /// query if the node's rectangle does.
    proof fn lemma_prune_sound(self, kind: QueryKind, level: nat, offset: int)
        requires
            self.wf(),
            level <= self.height_spec(),
            0 <= offset < self.nslots(level),
            !node_pred(kind, self.node_rect(level, offset)),
        ensures
            matching(self, kind, self.span_lo(level, offset), self.span_hi(level, offset))
                == Seq::<usize>::empty(),
    {
        let lo = self.span_lo(level, offset);
        let hi = self.span_hi(level, offset);
        lemma_pow_positive(self.deg(), level);
        vstd::arithmetic::mul::lemma_mul_nonnegative(offset, pow(self.deg(), level));
        assert forall|i: int| lo <= i < hi implies !node_pred(kind, self.leaf_rect(i)) by {
            assert(forall|j: int|
                0 <= j < self.size() ==> (#[trigger] self.leaves()[j]) == self.tree@[j]);
            lemma_span_union_le(self.leaves(), lo, hi, i);
            if node_pred(kind, self.leaf_rect(i)) {
                match kind {
                    QueryKind::InRect(q) => {
                        lemma_intersects_le(
                            self.leaf_rect(i),
                            span_union(self.leaves(), lo, hi),
                            q,
                        );
                    },
                    QueryKind::AtPoint(p) => {
                        lemma_contains_pt_le(
                            self.leaf_rect(i),
                            span_union(self.leaves(), lo, hi),
                            p,
                        );
                    },
                }
            }
        }
        lemma_matching_none(self, kind, lo, hi);
    }

    /// A node whose rectangle satisfies a query is a real node: its
    /// span is not empty.
    proof fn lemma_hit_is_real(self, kind: QueryKind, level: nat, offset: int)
        requires
            self.wf(),
            level <= self.height_spec(),
            0 <= offset < self.nslots(level),
            node_pred(kind, self.node_rect(level, offset)),
        ensures
            offset < level_size(self.deg(), self.capacity_spec(), level),
            self.span_lo(level, offset) < self.span_hi(level, offset),
            offset * pow(self.deg(), level) < self.size(),
    {
        let d = self.deg();
        let m = self.capacity_spec();
        lemma_pow_positive(d, level);
        vstd::arithmetic::mul::lemma_mul_nonnegative(offset, pow(d, level));
        vstd::arithmetic::mul::lemma_mul_is_distributive_add_other_way(
            pow(d, level),
            offset,
            1,
        );
        if offset * pow(d, level) >= self.size() {
            assert(self.span_lo(level, offset) == self.size());
            assert(self.span_hi(level, offset) == self.size());
            assert(self.node_rect(level, offset) == span_union(
                self.leaves(),
                self.size(),
                self.size(),
            ));
            assert(!node_pred(kind, Rectangle::spec_empty()));
            assert(false);
        }
        if offset >= level_size(d, m, level) {
            lemma_padding_span_empty(d, m, level, offset);
            assert(false);
        }
    }

    /// Recursive descent: append every matching leaf under
    /// `(level, offset)`.
    fn query_node(&self, kind: &QueryKind, level: usize, offset: usize, out: &mut Vec<usize>)
        requires
            self.wf(),
            level as nat <= self.height_spec(),
            (offset as int) < self.nslots(level as nat),
            node_pred(*kind, self.node_rect(level as nat, offset as int)),
        ensures
            final(out)@ == old(out)@ + matching(
                *self,
                *kind,
                self.span_lo(level as nat, offset as int),
                self.span_hi(level as nat, offset as int),
            ),
        decreases level,
    {
        let ghost l = level as nat;
        let ghost o = offset as int;
        let ghost d = self.deg();
        let ghost w = pow(d, l);
        proof {
            self.lemma_hit_is_real(*kind, l, o);
            lemma_pow_positive(d, l);
            vstd::arithmetic::mul::lemma_mul_nonnegative(o, w);
        }
        if level == 0 {
            proof {
                reveal_with_fuel(matching, 3);
                vstd::arithmetic::power::lemma_pow0(d);
                vstd::arithmetic::mul::lemma_mul_basics(o);
                vstd::arithmetic::mul::lemma_mul_basics(o + 1);
                assert(self.span_lo(0, o) == o);
                assert(self.span_hi(0, o) == o + 1);
                assert(self.node_rect(0, o) == span_union(self.leaves(), o, o + 1));
                assert(span_union(self.leaves(), o, o) == Rectangle::spec_empty());
                assert(self.node_rect(0, o) == self.leaf_rect(o));
                assert(matching(*self, *kind, o, o + 1) =~= Seq::<usize>::empty().push(
                    offset,
                ));
            }
            out.push(offset);
            proof {
                assert(out@ =~= old(out)@ + matching(*self, *kind, o, o + 1));
            }
            return;
        }
        let child_level = level - 1;
        let ghost lc = child_level as nat;
        let ghost wc = pow(d, lc);
        proof {
            lemma_level_size_bounds(d, self.capacity_spec(), l);
            vstd::arithmetic::mul::lemma_mul_upper_bound(d, 128, o, 0x20_0000);
            vstd::arithmetic::mul::lemma_mul_nonnegative(d, o);
        }
        let first_child = self.degree * offset;
        proof {
            lemma_pow_step(d, l);
            lemma_offset_in_level(d, self.capacity_spec(), o * w, l);
            // children slots exist: o < level_size(l), so d*o + d fits
            lemma_nslots_size(*self, lc);
            assert(level_size(d, self.capacity_spec(), (lc + 1) as nat) == crate::layout::ceil_div(
                level_size(d, self.capacity_spec(), lc),
                d,
            ));
            lemma_ceil_div(level_size(d, self.capacity_spec(), lc), d);
            assert(d * level_size(d, self.capacity_spec(), l) <= d * crate::layout::ceil_div(
                level_size(d, self.capacity_spec(), lc),
                d,
            )) by {
                vstd::arithmetic::mul::lemma_mul_inequality(
                    level_size(d, self.capacity_spec(), l),
                    crate::layout::ceil_div(level_size(d, self.capacity_spec(), lc), d),
                    d,
                );
                vstd::arithmetic::mul::lemma_mul_is_commutative(
                    level_size(d, self.capacity_spec(), l),
                    d,
                );
                vstd::arithmetic::mul::lemma_mul_is_commutative(
                    crate::layout::ceil_div(level_size(d, self.capacity_spec(), lc), d),
                    d,
                );
            }
            assert((l as int) + 1 <= self.num_levels());
            if (l as int) + 1 == self.num_levels() {
                // the root level: a single slot
                assert(level_size(d, self.capacity_spec(), l) <= 1);
            }
            lemma_child_nslots(*self, l, o);
            vstd::arithmetic::mul::lemma_mul_strict_inequality(
                o,
                level_size(d, self.capacity_spec(), l),
                d,
            );
            vstd::arithmetic::mul::lemma_mul_is_distributive_add_other_way(d, o, 1);
        }
        let mut child = first_child;
        let last_child = first_child + self.degree;
        proof {
            lemma_child_span(d, l, o, 0);
            assert(imin(((d * o) as int) * wc, self.size()) == self.span_lo(l, o));
        }
        while child < last_child
            invariant
                self.wf(),
                l == level as nat,
                o == offset as int,
                d == self.deg(),
                w == pow(d, l),
                wc == pow(d, (l - 1) as nat),
                level >= 1,
                lc == (l - 1) as nat,
                child_level == level - 1,
                l <= self.height_spec(),
                0 <= o < level_size(d, self.capacity_spec(), l),
                first_child == self.degree * offset,
                last_child == first_child + self.degree,
                first_child <= child <= last_child,
                (last_child as int) <= self.nslots(lc),
                out@ == old(out)@ + matching(
                    *self,
                    *kind,
                    self.span_lo(l, o),
                    imin((child as int) * wc, self.size()),
                ),
            decreases last_child - child,
        {
            proof {
                lemma_pow_positive(d, lc);
                lemma_pow_positive(d, l);
                lemma_level_size_bounds(d, self.capacity_spec(), l);
                vstd::arithmetic::mul::lemma_mul_nonnegative(o, w);
                vstd::arithmetic::mul::lemma_mul_nonnegative(child as int, wc);
                vstd::arithmetic::mul::lemma_mul_is_distributive_add_other_way(
                    wc,
                    child as int,
                    1,
                );
                vstd::arithmetic::mul::lemma_mul_inequality(
                    child as int + 1,
                    last_child as int,
                    wc,
                );
                lemma_child_span(d, l, o, child as int - first_child as int);
                lemma_child_span(d, l, o, child as int + 1 - first_child as int);
                lemma_child_span(d, l, o, d);
                vstd::arithmetic::mul::lemma_mul_nonnegative(
                    child as int - first_child as int,
                    wc,
                );
                vstd::arithmetic::mul::lemma_mul_nonnegative(
                    child as int + 1 - first_child as int,
                    wc,
                );
                vstd::arithmetic::mul::lemma_mul_is_distributive_add_other_way(
                    wc,
                    d * o + d,
                    0,
                );
                assert(o * w <= (child as int) * wc);
                assert((child as int) * wc <= (child as int + 1) * wc);
            }
            let rect = self.get_rectangle(child_level, child);
            let hit = match kind {
                QueryKind::InRect(q) => rect.intersects(q),
                QueryKind::AtPoint(p) => rect.contains_pt(*p),
            };
            let ghost out_pre = out@;
            if hit {
                self.query_node(kind, child_level, child, out);
            } else {
                proof {
                    self.lemma_prune_sound(*kind, lc, child as int);
                }
            }
            proof {
                lemma_matching_split(
                    *self,
                    *kind,
                    self.span_lo(l, o),
                    imin((child as int) * wc, self.size()),
                    imin((child as int + 1) * wc, self.size()),
                );
                assert(self.span_lo(lc, child as int) == imin((child as int) * wc, self.size()))
                    by {
                    vstd::arithmetic::mul::lemma_mul_inequality(
                        d * o,
                        child as int,
                        wc,
                    );
                    vstd::arithmetic::mul::lemma_mul_nonnegative(o, w);
                }
                assert(out@ =~= old(out)@ + matching(
                    *self,
                    *kind,
                    self.span_lo(l, o),
                    imin((child as int + 1) * wc, self.size()),
                ));
            }
            child = child + 1;
        }
        proof {
            lemma_child_span(d, l, o, d);
            assert((last_child as int) * wc == (o + 1) * w);
            assert(imin((last_child as int) * wc, self.size()) == self.span_hi(l, o));
        }
    }

    /// All leaf indices whose rectangle intersects `rect`, each exactly
    /// once, in no promised order.
    pub fn query_rect(&self, rect: Rectangle) -> (r: Vec<usize>)
        requires
            self.wf(),
        ensures
            r@.no_duplicates(),
            forall|j: int|
                0 <= j < r@.len() ==> (#[trigger] r@[j] as int) < self.size() && self.leaf_rect(
                    r@[j] as int,
                ).spec_intersects(rect),
            forall|i: int|
                0 <= i < self.size() && (#[trigger] self.leaf_rect(i)).spec_intersects(rect)
                    ==> r@.contains(i as usize),
    {
        self.query(QueryKind::InRect(rect))
    }

    /// All leaf indices whose rectangle contains `point`, each exactly
    /// once, in no promised order.
    pub fn query_point(&self, point: Coordinate) -> (r: Vec<usize>)
        requires
            self.wf(),
        ensures
            r@.no_duplicates(),
            forall|j: int|
                0 <= j < r@.len() ==> (#[trigger] r@[j] as int) < self.size() && self.leaf_rect(
                    r@[j] as int,
                ).spec_contains_pt(point),
            forall|i: int|
                0 <= i < self.size() && (#[trigger] self.leaf_rect(i)).spec_contains_pt(point)
                    ==> r@.contains(i as usize),
    {
        self.query(QueryKind::AtPoint(point))
    }

    /// Shared descent from the root under a node predicate.
    fn query(&self, kind: QueryKind) -> (r: Vec<usize>)
        requires
            self.wf(),
        ensures
            r@.no_duplicates(),
            forall|j: int|
                0 <= j < r@.len() ==> 0 <= (#[trigger] r@[j] as int) < self.size() && node_pred(
                    kind,
                    self.leaf_rect(r@[j] as int),
                ),
            forall|i: int|
                0 <= i < self.size() && node_pred(kind, #[trigger] self.leaf_rect(i))
                    ==> r@.contains(i as usize),
    {
        let mut results: Vec<usize> = Vec::new();
        if self.is_empty() {
            return results;
        }
        let height = self.current_level;
        let ghost h = self.height_spec();
        proof {
            lemma_nslots_size(*self, h);
            lemma_pow_positive(self.deg(), h);
            vstd::arithmetic::mul::lemma_mul_basics(pow(self.deg(), h));
            assert(self.span_lo(h, 0) == 0);
            assert(self.span_hi(h, 0) == self.size());
        }
        let root_rect = self.get_rectangle(height, 0);
        let hit = match kind {
            QueryKind::InRect(q) => root_rect.intersects(&q),
            QueryKind::AtPoint(p) => root_rect.contains_pt(p),
        };
        if hit {
            self.query_node(&kind, height, 0, &mut results);
        } else {
            proof {
                self.lemma_prune_sound(kind, h, 0);
            }
        }
        proof {
            lemma_matching_membership(*self, kind, 0, self.size());
            assert(results@ =~= matching(*self, kind, 0, self.size()));
        }
        results
    }

    /// What a caller needs to walk from a real node into its children.
    pub proof fn lemma_descend(self, l: nat, o: int)
        requires
            self.wf(),
            1 <= l <= self.height_spec(),
            0 <= o < level_size(self.deg(), self.capacity_spec(), l),
        ensures
            self.deg() * o + self.deg() <= self.nslots((l - 1) as nat),
            pow(self.deg(), (l - 1) as nat) >= 1,
            pow(self.deg(), l) == pow(self.deg(), (l - 1) as nat) * self.deg(),
            self.span_lo(l, o) == imin(
                (self.deg() * o) * pow(self.deg(), (l - 1) as nat),
                self.size(),
            ),
            self.span_hi(l, o) == imin(
                (self.deg() * o + self.deg()) * pow(self.deg(), (l - 1) as nat),
                self.size(),
            ),
            0 <= self.deg() * o,
            self.deg() * o <= 0x1000_0000,
    {
        let d = self.deg();
        let lc = (l - 1) as nat;
        let wc = pow(d, lc);
        lemma_child_nslots(self, l, o);
        lemma_pow_positive(d, lc);
        lemma_pow_positive(d, l);
        lemma_pow_step(d, l);
        lemma_child_span(d, l, o, 0);
        lemma_child_span(d, l, o, d);
        vstd::arithmetic::mul::lemma_mul_basics(wc);
        vstd::arithmetic::mul::lemma_mul_is_distributive_add_other_way(wc, d * o, 0);
        vstd::arithmetic::mul::lemma_mul_is_distributive_add_other_way(wc, d * o + d, 0);
        lemma_level_size_bounds(d, self.capacity_spec(), l);
        vstd::arithmetic::mul::lemma_mul_upper_bound(d, 128, o, 0x20_0000);
        vstd::arithmetic::mul::lemma_mul_nonnegative(d, o);
    }

    /// The root node spans every leaf.
    pub proof fn lemma_root_span(self)
        requires
            self.wf(),
        ensures
            self.span_lo(self.height_spec(), 0) == 0,
            self.span_hi(self.height_spec(), 0) == self.size(),
            self.nslots(self.height_spec()) >= 1,
            self.node_rect(self.height_spec(), 0) == span_union(
                self.leaves(),
                0,
                self.size(),
            ),
    {
        let h = self.height_spec();
        lemma_nslots_size(self, h);
        lemma_pow_positive(self.deg(), h);
        vstd::arithmetic::mul::lemma_mul_basics(pow(self.deg(), h));
    }

    /// The leaf rectangles of a well-formed tree are well-formed.
    pub proof fn lemma_leaves_wf(self)
        requires
            self.wf(),
        ensures
            forall|q: int| 0 <= q < self.size() ==> (#[trigger] self.leaves()[q]).wf(),
    {
        assert(forall|q: int|
            0 <= q < self.size() ==> (#[trigger] self.leaves()[q]) == self.tree@[q]);
    }

    /// Structural facts of well-formedness that callers outside this
    /// module rely on.
    pub proof fn lemma_wf_basics(self)
        requires
            self.wf(),
        ensures
            2 <= self.deg() <= 128,
            0 <= self.size() <= self.capacity_spec() <= 0x20_0000,
            (self.height_spec() as int) < self.num_levels(),
            self.leaves().len() == self.size(),
            forall|q: int| 0 <= q < self.size() ==> (#[trigger] self.leaves()[q]).wf(),
    {
        self.lemma_leaves_wf();
    }

    /// Every filled slot carries exactly the union of its leaf span.
    pub proof fn lemma_node_is_span(self, l: nat, o: int)
        requires
            self.wf(),
            l <= self.height_spec(),
            0 <= o < self.nslots(l),
        ensures
            self.node_rect(l, o) == span_union(self.leaves(), self.span_lo(l, o), self.span_hi(
                l,
                o,
            )),
            self.node_rect(l, o).wf(),
    {
        self.lemma_slot_bounds(l, o);
    }
}


impl SegRTree {
    /// The bounding box of everything in the tree: the exact union of
    /// all leaf rectangles (empty when the tree is empty).
    pub fn envelope(&self) -> (r: Rectangle)
        requires
            self.wf(),
        ensures
            r == span_union(self.leaves(), 0, self.size()),
            r.wf(),
    {
        let ghost h = self.height_spec();
        proof {
            lemma_nslots_size(*self, h);
            lemma_pow_positive(self.deg(), h);
            vstd::arithmetic::mul::lemma_mul_basics(pow(self.deg(), h));
            assert(self.span_lo(h, 0) == 0);
            assert(self.span_hi(h, 0) == self.size());
        }
        self.get_rectangle(self.current_level, 0)
    }

    /// Build a sealed tree over the given leaf rectangles in one pass:
    /// copy the leaves, then fill each level with the unions of chunks
    /// of `degree` nodes of the level below.
    pub fn new_loaded(degree: usize, rects: &Vec<Rectangle>) -> (r: SegRTree)
        requires
            degree <= MAX_DEGREE,
            rects@.len() <= MAX_CAPACITY,
            forall|i: int| 0 <= i < rects@.len() ==> (#[trigger] rects@[i]).wf(),
        ensures
            r.wf(),
            r.size() == rects@.len(),
            r.capacity_spec() == rects@.len(),
            r.leaves() == rects@,
            r.deg() == if degree >= 2 {
                degree as int
            } else {
                2int
            },
            r.height_spec() + 1 == r.num_levels(),
    {
        let degree = if degree < 2 {
            2
        } else {
            degree
        };
        let n = rects.len();
        let ghost d = degree as int;
        let ghost ni = n as int;
        let ghost lv = rects@;
        let level_indices = calculate_level_indices(degree, n);
        let num_levels = level_indices.len();
        let tree_size = level_indices[num_levels - 1] + 1;
        let mut tree: Vec<Rectangle> = Vec::new();
        while tree.len() < tree_size
            invariant
                tree_size <= 0x4000_0001,
                tree@.len() <= tree_size,
                forall|j: int| 0 <= j < tree@.len() ==> tree@[j] == Rectangle::spec_empty(),
            decreases tree_size - tree@.len(),
        {
            tree.push(Rectangle::new_empty());
        }
        // copy the leaf rectangles into the leaf row
        proof {
            lemma_capacity_fits(d, ni, level_indices@);
            vstd::arithmetic::power::lemma_pow0(d);
        }
        let mut i: usize = 0;
        while i < n
            invariant
                2 <= d <= 128,
                0 <= ni <= 0x20_0000,
                d == degree as int,
                ni == n as int,
                lv.len() == ni,
                lv == rects@,
                ni == rects@.len(),
                levels_wf(d, ni, level_indices@),
                tree@.len() == level_indices@[level_indices@.len() - 1] + 1,
                tree@.len() <= 0x4000_0001,
                ni <= tree@.len(),
                i <= n,
                forall|j: int| 0 <= j < lv.len() ==> (#[trigger] lv[j]).wf(),
                forall|j: int| 0 <= j < i ==> #[trigger] tree@[j] == lv[j],
                forall|j: int|
                    i <= j < tree@.len() ==> #[trigger] tree@[j] == Rectangle::spec_empty(),
            decreases n - i,
        {
            tree.set(i, rects[i]);
            i += 1;
        }
        // fill the upper levels with chunk unions
        proof {
            lemma_level_zero_ok(d, ni, lv, level_indices@, tree@);
        }
        let mut level: usize = 1;
        while level < num_levels
            invariant
                2 <= d <= 128,
                0 <= ni <= 0x20_0000,
                d == degree as int,
                ni == n as int,
                lv.len() == ni,
                forall|j: int| 0 <= j < lv.len() ==> (#[trigger] lv[j]).wf(),
                num_levels == level_indices@.len(),
                levels_wf(d, ni, level_indices@),
                tree@.len() == level_indices@[level_indices@.len() - 1] + 1,
                tree@.len() <= 0x4000_0001,
                ni <= tree@.len(),
                1 <= level <= num_levels,
                forall|j: int| 0 <= j < tree@.len() ==> (#[trigger] tree@[j]).wf(),
                forall|lq: nat, oq: int|
                    lq < level as nat && 0 <= oq < table_slots(d, ni, level_indices@, lq)
                        ==> #[trigger] tree@[level_start(d, ni, lq) + oq] == span_union(
                        lv,
                        imin(oq * pow(d, lq), ni),
                        imin((oq + 1) * pow(d, lq), ni),
                    ),
                forall|lq: nat, oq: int|
                    level as nat <= lq && (lq as int) < num_levels && 0 <= oq < table_slots(
                        d,
                        ni,
                        level_indices@,
                        lq,
                    ) ==> #[trigger] tree@[level_start(d, ni, lq) + oq]
                        == Rectangle::spec_empty(),
            decreases num_levels - level,
        {
            let ghost l = level as nat;
            let ghost lc = (l - 1) as nat;
            let ghost w = pow(d, l);
            let ghost wc = pow(d, lc);
            proof {
                lemma_pow_step(d, l);
                lemma_pow_positive(d, lc);
                lemma_pow_positive(d, l);
                lemma_level_size_bounds(d, ni, lc);
                lemma_ceil_div(level_size(d, ni, lc), d);
            }
            proof {
                assert(level_start(d, ni, lc) == level_indices@[lc as int]);
                assert(level_start(d, ni, l) == level_indices@[l as int]);
                assert(level_start(d, ni, l) == level_start(d, ni, lc) + d * ceil_div(
                    level_size(d, ni, lc),
                    d,
                ));
                vstd::arithmetic::mul::lemma_mul_nonnegative(
                    d,
                    ceil_div(level_size(d, ni, lc), d),
                );
            }
            let prev_start = level_indices[level - 1];
            let cur_start = level_indices[level];
            let cap_prev = cur_start - prev_start;
            let parents = cap_prev / degree;
            proof {
                assert(cap_prev as int == d * ceil_div(level_size(d, ni, lc), d));
                vstd::arithmetic::div_mod::lemma_div_multiples_vanish(
                    ceil_div(level_size(d, ni, lc), d),
                    d,
                );
                assert(parents as int == level_size(d, ni, l));
                lemma_level_size_bounds(d, ni, l);
            }
            let mut o: usize = 0;
            while o < parents
                invariant
                    2 <= d <= 128,
                    0 <= ni <= 0x20_0000,
                    d == degree as int,
                    ni == n as int,
                    lv.len() == ni,
                    forall|j: int| 0 <= j < lv.len() ==> (#[trigger] lv[j]).wf(),
                    num_levels == level_indices@.len(),
                    levels_wf(d, ni, level_indices@),
                    tree@.len() == level_indices@[level_indices@.len() - 1] + 1,
                    tree@.len() <= 0x4000_0001,
                    ni <= tree@.len(),
                    1 <= level < num_levels,
                    l == level as nat,
                    lc == (l - 1) as nat,
                    w == pow(d, l),
                    wc == pow(d, lc),
                    w >= 1,
                    wc >= 1,
                    w == wc * d,
                    prev_start as int == level_start(d, ni, lc),
                    cur_start as int == level_start(d, ni, l),
                    parents as int == level_size(d, ni, l),
                    parents as int <= ni,
                    cap_prev == cur_start - prev_start,
                    cap_prev as int == d * ceil_div(level_size(d, ni, lc), d),
                    o <= parents,
                    forall|j: int| 0 <= j < tree@.len() ==> (#[trigger] tree@[j]).wf(),
                    forall|lq: nat, oq: int|
                        lq < l && 0 <= oq < table_slots(d, ni, level_indices@, lq)
                            ==> #[trigger] tree@[level_start(d, ni, lq) + oq] == span_union(
                            lv,
                            imin(oq * pow(d, lq), ni),
                            imin((oq + 1) * pow(d, lq), ni),
                        ),
                    forall|oq: int|
                        0 <= oq < o ==> #[trigger] tree@[level_start(d, ni, l) + oq]
                            == span_union(
                            lv,
                            imin(oq * pow(d, l), ni),
                            imin((oq + 1) * pow(d, l), ni),
                        ),
                    forall|oq: int|
                        o <= oq < table_slots(d, ni, level_indices@, l) ==> #[trigger] tree@[
                            level_start(d, ni, l) + oq
                        ] == Rectangle::spec_empty(),
                    forall|lq: nat, oq: int|
                        l < lq && (lq as int) < num_levels && 0 <= oq < table_slots(
                            d,
                            ni,
                            level_indices@,
                            lq,
                        ) ==> #[trigger] tree@[level_start(d, ni, lq) + oq]
                            == Rectangle::spec_empty(),
                decreases parents - o,
            {
                proof {
                    vstd::arithmetic::mul::lemma_mul_upper_bound(d, 128, o as int, 0x20_0000);
                    vstd::arithmetic::mul::lemma_mul_nonnegative(d, o as int);
                    lemma_table_child_slots(d, ni, level_indices@, l, o as int);
                    lemma_child_span(d, l, o as int, 0);
                    vstd::arithmetic::mul::lemma_mul_nonnegative(o as int, w);
                }
                let first = degree * o;
                let mut acc = Rectangle::new_empty();
                let mut c: usize = 0;
                proof {
                    assert(acc == span_union(lv, imin(((d * o as int) + 0) * wc, ni), imin(
                        ((d * o as int) + 0) * wc,
                        ni,
                    )));
                }
                while c < degree
                    invariant
                        2 <= d <= 128,
                        0 <= ni <= 0x20_0000,
                        d == degree as int,
                        ni == n as int,
                        lv.len() == ni,
                        forall|j: int| 0 <= j < lv.len() ==> (#[trigger] lv[j]).wf(),
                        num_levels == level_indices@.len(),
                        levels_wf(d, ni, level_indices@),
                        tree@.len() == level_indices@[level_indices@.len() - 1] + 1,
                        tree@.len() <= 0x4000_0001,
                        1 <= level < num_levels,
                        l == level as nat,
                        lc == (l - 1) as nat,
                        w == pow(d, l),
                        wc == pow(d, lc),
                        w >= 1,
                        wc >= 1,
                        w == wc * d,
                        prev_start as int == level_start(d, ni, lc),
                        parents as int == level_size(d, ni, l),
                        parents as int <= ni,
                        o < parents,
                        first == degree * o,
                        (d * (o as int) + d) <= table_slots(d, ni, level_indices@, lc),
                        c <= degree,
                        forall|j: int| 0 <= j < tree@.len() ==> (#[trigger] tree@[j]).wf(),
                        forall|lq: nat, oq: int|
                            lq < l && 0 <= oq < table_slots(d, ni, level_indices@, lq)
                                ==> #[trigger] tree@[level_start(d, ni, lq) + oq] == span_union(
                                lv,
                                imin(oq * pow(d, lq), ni),
                                imin((oq + 1) * pow(d, lq), ni),
                            ),
                        acc.wf(),
                        acc == span_union(
                            lv,
                            imin((d * (o as int)) * wc, ni),
                            imin((d * (o as int) + c) * wc, ni),
                        ),
                    decreases degree - c,
                {
                    let ghost cq = d * (o as int) + c;
                    proof {
                        lemma_slot_in_table(d, ni, level_indices@, lc, cq);
                        vstd::arithmetic::mul::lemma_mul_nonnegative(d * (o as int), wc);
                        vstd::arithmetic::mul::lemma_mul_nonnegative(cq, wc);
                        vstd::arithmetic::mul::lemma_mul_is_distributive_add_other_way(
                            wc,
                            cq,
                            1,
                        );
                        vstd::arithmetic::mul::lemma_mul_inequality(
                            d * (o as int),
                            cq,
                            wc,
                        );
                        vstd::arithmetic::mul::lemma_mul_inequality(cq, cq + 1, wc);
                        lemma_span_union_wf(lv, imin((d * (o as int)) * wc, ni), imin(
                            cq * wc,
                            ni,
                        ));
                        lemma_span_union_split(
                            lv,
                            imin((d * (o as int)) * wc, ni),
                            imin(cq * wc, ni),
                            imin((cq + 1) * wc, ni),
                        );
                    }
                    proof {
                        assert(tree@[level_start(d, ni, lc) + cq] == span_union(
                            lv,
                            imin(cq * pow(d, lc), ni),
                            imin((cq + 1) * pow(d, lc), ni),
                        ));
                        assert((prev_start + first + c) as int == level_start(d, ni, lc) + cq);
                    }
                    let child = tree[prev_start + first + c];
                    proof {
                        assert(child == span_union(lv, imin(cq * wc, ni), imin(
                            (cq + 1) * wc,
                            ni,
                        )));
                        lemma_span_union_wf(lv, imin(cq * wc, ni), imin((cq + 1) * wc, ni));
                    }
                    acc = acc.merge(&child);
                    c += 1;
                }
                proof {
                    lemma_child_span(d, l, o as int, d);
                    assert((d * (o as int)) * wc == (o as int) * w) by {
                        lemma_child_span(d, l, o as int, 0);
                        vstd::arithmetic::mul::lemma_mul_basics(wc);
                        vstd::arithmetic::mul::lemma_mul_is_distributive_add_other_way(
                            wc,
                            d * (o as int),
                            0,
                        );
                    }
                    assert(acc == span_union(lv, imin((o as int) * w, ni), imin(
                        ((o as int) + 1) * w,
                        ni,
                    )));
                    lemma_nslots_table_size(d, ni, level_indices@, l);
                    lemma_slot_in_table(d, ni, level_indices@, l, o as int);
                }
                let ghost pre_tree = tree@;
                tree.set(cur_start + o, acc);
                proof {
                    assert(tree@ == pre_tree.update(cur_start + o as int, acc));
                    assert forall|lq: nat, oq: int|
                        lq < l && 0 <= oq < table_slots(d, ni, level_indices@, lq)
                            implies #[trigger] tree@[level_start(d, ni, lq) + oq] == span_union(
                        lv,
                        imin(oq * pow(d, lq), ni),
                        imin((oq + 1) * pow(d, lq), ni),
                    ) by {
                        lemma_slot_in_table(d, ni, level_indices@, lq, oq);
                        lemma_table_slot_distinct(d, ni, level_indices@, lq, oq, l, o as int);
                    }
                    assert forall|oq: int|
                        o + 1 <= oq < table_slots(d, ni, level_indices@, l)
                            implies #[trigger] tree@[level_start(d, ni, l) + oq]
                            == Rectangle::spec_empty() by {
                        lemma_slot_in_table(d, ni, level_indices@, l, oq);
                    }
                    assert forall|lq: nat, oq: int|
                        l < lq && (lq as int) < num_levels && 0 <= oq < table_slots(
                            d,
                            ni,
                            level_indices@,
                            lq,
                        ) implies #[trigger] tree@[level_start(d, ni, lq) + oq]
                        == Rectangle::spec_empty() by {
                        lemma_slot_in_table(d, ni, level_indices@, lq, oq);
                        lemma_table_slot_distinct(d, ni, level_indices@, lq, oq, l, o as int);
                    }
                }
                o += 1;
            }
            proof {
                // padding slots on this level carry empty spans
                assert forall|oq: int|
                    parents <= oq < table_slots(d, ni, level_indices@, l)
                        implies #[trigger] tree@[level_start(d, ni, l) + oq] == span_union(
                    lv,
                    imin(oq * pow(d, l), ni),
                    imin((oq + 1) * pow(d, l), ni),
                ) by {
                    lemma_padding_span_empty(d, ni, l, oq);
                    vstd::arithmetic::mul::lemma_mul_is_distributive_add_other_way(
                        pow(d, l),
                        oq,
                        1,
                    );
                    lemma_pow_positive(d, l);
                    vstd::arithmetic::mul::lemma_mul_nonnegative(oq, pow(d, l));
                }
            }
            level += 1;
        }
        let r = SegRTree {
            degree,
            max_size: n,
            current_size: n,
            current_level: num_levels - 1,
            level_indices,
            tree,
        };
        proof {
            lemma_loaded_wf(r, lv);
        }
        r
    }
}

/// The pair-query condition: a pair of leaf indices under the two
/// nodes whose rectangles intersect, optionally ordered.
pub open spec fn pair_cond(
    ta: SegRTree,
    tb: SegRTree,
    ordered: bool,
    la: nat,
    oa: int,
    lb: nat,
    ob: int,
    p: (usize, usize),
) -> bool {
    &&& ta.span_lo(la, oa) <= (p.0 as int) < ta.span_hi(la, oa)
    &&& tb.span_lo(lb, ob) <= (p.1 as int) < tb.span_hi(lb, ob)
    &&& (ordered ==> (p.0 as int) < (p.1 as int))
    &&& ta.leaf_rect(p.0 as int).spec_intersects(tb.leaf_rect(p.1 as int))
}

/// Concatenating sequences with no shared element keeps distinctness.
pub proof fn lemma_no_dup_concat(s1: Seq<(usize, usize)>, s2: Seq<(usize, usize)>)
    requires
        s1.no_duplicates(),
        s2.no_duplicates(),
        forall|x: (usize, usize)| s1.contains(x) ==> !s2.contains(x),
    ensures
        (s1 + s2).no_duplicates(),
{
    let c = s1 + s2;
    assert forall|i: int, j: int|
        0 <= i < c.len() && 0 <= j < c.len() && i != j implies c[i] != c[j] by {
        if i < s1.len() && j < s1.len() {
        } else if i >= s1.len() && j >= s1.len() {
            assert(c[i] == s2[i - s1.len()]);
            assert(c[j] == s2[j - s1.len()]);
        } else if i < s1.len() && j >= s1.len() {
            assert(c[i] == s1[i]);
            assert(c[j] == s2[j - s1.len()]);
            if c[i] == c[j] {
                assert(s1.contains(c[i]));
                assert(s2.contains(c[i]));
            }
        } else {
            assert(c[j] == s1[j]);
            assert(c[i] == s2[i - s1.len()]);
            if c[i] == c[j] {
                assert(s1.contains(c[j]));
                assert(s2.contains(c[j]));
            }
        }
    }
}

impl SegRTree {
    /// A non-empty stored rectangle marks a real node with a non-empty
    /// leaf span.
    pub proof fn lemma_nonempty_is_real(self, level: nat, offset: int)
        requires
            self.wf(),
            level <= self.height_spec(),
            0 <= offset < self.nslots(level),
            !self.node_rect(level, offset).is_empty_spec(),
        ensures
            offset < level_size(self.deg(), self.capacity_spec(), level),
            self.span_lo(level, offset) < self.span_hi(level, offset),
            offset * pow(self.deg(), level) < self.size(),
            self.span_lo(level, offset) == offset * pow(self.deg(), level),
    {
        let d = self.deg();
        let m = self.capacity_spec();
        lemma_pow_positive(d, level);
        vstd::arithmetic::mul::lemma_mul_nonnegative(offset, pow(d, level));
        vstd::arithmetic::mul::lemma_mul_is_distributive_add_other_way(
            pow(d, level),
            offset,
            1,
        );
        if offset * pow(d, level) >= self.size() {
            assert(self.node_rect(level, offset) == span_union(
                self.leaves(),
                self.size(),
                self.size(),
            ));
            assert(false);
        }
        if offset >= level_size(d, m, level) {
            lemma_padding_span_empty(d, m, level, offset);
            assert(false);
        }
    }

    /// No pair of leaves under two non-intersecting nodes can intersect.
    proof fn lemma_pair_prune(
        self,
        other: SegRTree,
        ordered: bool,
        la: nat,
        oa: int,
        lb: nat,
        ob: int,
    )
        requires
            self.wf(),
            other.wf(),
            la <= self.height_spec(),
            0 <= oa < self.nslots(la),
            lb <= other.height_spec(),
            0 <= ob < other.nslots(lb),
            !self.node_rect(la, oa).spec_intersects(other.node_rect(lb, ob)),
        ensures
            forall|p: (usize, usize)| !pair_cond(self, other, ordered, la, oa, lb, ob, p),
    {
        lemma_pow_positive(self.deg(), la);
        lemma_pow_positive(other.deg(), lb);
        vstd::arithmetic::mul::lemma_mul_nonnegative(oa, pow(self.deg(), la));
        vstd::arithmetic::mul::lemma_mul_nonnegative(ob, pow(other.deg(), lb));
        assert forall|p: (usize, usize)|
            !pair_cond(self, other, ordered, la, oa, lb, ob, p) by {
            if pair_cond(self, other, ordered, la, oa, lb, ob, p) {
                let i = p.0 as int;
                let j = p.1 as int;
                assert(forall|q: int|
                    0 <= q < self.size() ==> (#[trigger] self.leaves()[q]) == self.tree@[q]);
                assert(forall|q: int|
                    0 <= q < other.size() ==> (#[trigger] other.leaves()[q]) == other.tree@[q]);
                lemma_span_union_le(
                    self.leaves(),
                    self.span_lo(la, oa),
                    self.span_hi(la, oa),
                    i,
                );
                lemma_span_union_le(
                    other.leaves(),
                    other.span_lo(lb, ob),
                    other.span_hi(lb, ob),
                    j,
                );
                lemma_intersects_le_both(
                    self.leaf_rect(i),
                    other.leaf_rect(j),
                    self.node_rect(la, oa),
                    other.node_rect(lb, ob),
                );
                assert(false);
            }
        }
    }

    /// Recursive pair descent shared by the self- and cross-queries.
    /// Appends every leaf pair under the two nodes whose rectangles
    /// intersect (ordered pairs only, when asked), each exactly once.
    fn pairs_node(
        &self,
        other: &SegRTree,
        ordered: bool,
        la: usize,
        oa: usize,
        lb: usize,
        ob: usize,
        out: &mut Vec<(usize, usize)>,
    )
        requires
            self.wf(),
            other.wf(),
            la as nat <= self.height_spec(),
            (oa as int) < self.nslots(la as nat),
            lb as nat <= other.height_spec(),
            (ob as int) < other.nslots(lb as nat),
        ensures
            final(out)@.len() >= old(out)@.len(),
            final(out)@.subrange(0, old(out)@.len() as int) == old(out)@,
            forall|j: int|
                old(out)@.len() <= j < final(out)@.len() ==> pair_cond(
                    *self,
                    *other,
                    ordered,
                    la as nat,
                    oa as int,
                    lb as nat,
                    ob as int,
                    #[trigger] final(out)@[j],
                ),
            forall|p: (usize, usize)|
                pair_cond(*self, *other, ordered, la as nat, oa as int, lb as nat, ob as int, p)
                    ==> #[trigger] final(out)@.subrange(
                    old(out)@.len() as int,
                    final(out)@.len() as int,
                ).contains(p),
            final(out)@.subrange(
                old(out)@.len() as int,
                final(out)@.len() as int,
            ).no_duplicates(),
        decreases la + lb,
    {
        let ghost ta = *self;
        let ghost tb = *other;
        let ghost gla = la as nat;
        let ghost goa = oa as int;
        let ghost glb = lb as nat;
        let ghost gob = ob as int;
        let rect_a = self.get_rectangle(la, oa);
        let rect_b = other.get_rectangle(lb, ob);
        if !rect_a.intersects(&rect_b) {
            proof {
                self.lemma_pair_prune(*other, ordered, gla, goa, glb, gob);
                assert(final(out)@.subrange(0, old(out)@.len() as int) =~= old(out)@);
                assert(final(out)@.subrange(
                    old(out)@.len() as int,
                    final(out)@.len() as int,
                ) =~= Seq::<(usize, usize)>::empty());
            }
            return;
        }
        proof {
            self.lemma_nonempty_is_real(gla, goa);
            other.lemma_nonempty_is_real(glb, gob);
        }
        if la == 0 && lb == 0 {
            proof {
                vstd::arithmetic::power::lemma_pow0(ta.deg());
                vstd::arithmetic::power::lemma_pow0(tb.deg());
                vstd::arithmetic::mul::lemma_mul_basics(goa);
                vstd::arithmetic::mul::lemma_mul_basics(goa + 1);
                vstd::arithmetic::mul::lemma_mul_basics(gob);
                vstd::arithmetic::mul::lemma_mul_basics(gob + 1);
                assert(ta.span_lo(0, goa) == goa && ta.span_hi(0, goa) == goa + 1);
                assert(tb.span_lo(0, gob) == gob && tb.span_hi(0, gob) == gob + 1);
                assert(ta.node_rect(0, goa) == span_union(ta.leaves(), goa, goa + 1));
                assert(span_union(ta.leaves(), goa, goa) == Rectangle::spec_empty());
                assert(ta.node_rect(0, goa) == ta.leaf_rect(goa));
                assert(tb.node_rect(0, gob) == span_union(tb.leaves(), gob, gob + 1));
                assert(span_union(tb.leaves(), gob, gob) == Rectangle::spec_empty());
                assert(tb.node_rect(0, gob) == tb.leaf_rect(gob));
            }
            if !ordered || oa < ob {
                let ghost pre = out@;
                out.push((oa, ob));
                proof {
                    assert(out@.subrange(0, pre.len() as int) =~= pre);
                    let suf = out@.subrange(pre.len() as int, out@.len() as int);
                    assert(suf =~= Seq::<(usize, usize)>::empty().push((oa, ob)));
                    assert(suf[0] == (oa, ob));
                    assert forall|p: (usize, usize)|
                        pair_cond(ta, tb, ordered, gla, goa, glb, gob, p) implies #[trigger] out@
                        .subrange(pre.len() as int, out@.len() as int).contains(p) by {
                        assert(p.0 as int == goa && p.1 as int == gob);
                        assert(p == (oa, ob));
                        assert(suf[0] == p);
                    }
                }
            } else {
                proof {
                    assert(final(out)@.subrange(0, old(out)@.len() as int) =~= old(out)@);
                    assert(out@.subrange(
                        old(out)@.len() as int,
                        out@.len() as int,
                    ) =~= Seq::<(usize, usize)>::empty());
                    assert forall|p: (usize, usize)|
                        !pair_cond(ta, tb, ordered, gla, goa, glb, gob, p) by {
                        if pair_cond(ta, tb, ordered, gla, goa, glb, gob, p) {
                            assert(p.0 as int == goa && p.1 as int == gob);
                            assert(false);
                        }
                    }
                }
            }
            return;
        }
        if la >= lb {
            // expand this tree's node
            self.pairs_expand_a(other, ordered, la, oa, lb, ob, out);
        } else {
            self.pairs_expand_b(other, ordered, la, oa, lb, ob, out);
        }
    }
}

impl SegRTree {
    /// Expand the first tree's node and pair each child against the
    /// second node.
    fn pairs_expand_a(
        &self,
        other: &SegRTree,
        ordered: bool,
        la: usize,
        oa: usize,
        lb: usize,
        ob: usize,
        out: &mut Vec<(usize, usize)>,
    )
        requires
            self.wf(),
            other.wf(),
            1 <= la,
            la as nat <= self.height_spec(),
            0 <= (oa as int) < level_size(self.deg(), self.capacity_spec(), la as nat),
            lb as nat <= other.height_spec(),
            (ob as int) < other.nslots(lb as nat),
        ensures
            final(out)@.len() >= old(out)@.len(),
            final(out)@.subrange(0, old(out)@.len() as int) == old(out)@,
            forall|j: int|
                old(out)@.len() <= j < final(out)@.len() ==> pair_cond(
                    *self,
                    *other,
                    ordered,
                    la as nat,
                    oa as int,
                    lb as nat,
                    ob as int,
                    #[trigger] final(out)@[j],
                ),
            forall|p: (usize, usize)|
                pair_cond(*self, *other, ordered, la as nat, oa as int, lb as nat, ob as int, p)
                    ==> #[trigger] final(out)@.subrange(
                    old(out)@.len() as int,
                    final(out)@.len() as int,
                ).contains(p),
            final(out)@.subrange(
                old(out)@.len() as int,
                final(out)@.len() as int,
            ).no_duplicates(),
        decreases la + lb, 0int,
    {
        let ghost ta = *self;
        let ghost tb = *other;
        let ghost gla = la as nat;
        let ghost goa = oa as int;
        let ghost glb = lb as nat;
        let ghost gob = ob as int;
        let ghost d = self.deg();
        let ghost w = pow(d, gla);
        let ghost lc = (gla - 1) as nat;
        let ghost wc = pow(d, lc);
        let ghost base = out@.len() as int;
        proof {
            lemma_level_size_bounds(d, ta.capacity_spec(), gla);
            vstd::arithmetic::mul::lemma_mul_upper_bound(d, 128, goa, 0x20_0000);
            vstd::arithmetic::mul::lemma_mul_nonnegative(d, goa);
            lemma_child_nslots(ta, gla, goa);
            lemma_pow_step(d, gla);
            lemma_pow_positive(d, lc);
            lemma_pow_positive(d, gla);
            vstd::arithmetic::mul::lemma_mul_nonnegative(goa, w);
            lemma_child_span(d, gla, goa, 0);
            vstd::arithmetic::mul::lemma_mul_basics(wc);
            vstd::arithmetic::mul::lemma_mul_is_distributive_add_other_way(wc, d * goa, 0);
            assert((d * goa) * wc == goa * w);
        }
        let child_level = la - 1;
        let first_child = self.degree * oa;
        let last_child = first_child + self.degree;
        let mut child = first_child;
        while child < last_child
            invariant
                ta == *self,
                tb == *other,
                ta.wf(),
                tb.wf(),
                1 <= la,
                gla == la as nat,
                goa == oa as int,
                glb == lb as nat,
                gob == ob as int,
                d == ta.deg(),
                w == pow(d, gla),
                lc == (gla - 1) as nat,
                wc == pow(d, lc),
                w == wc * d,
                wc >= 1,
                child_level == la - 1,
                gla <= ta.height_spec(),
                0 <= goa < level_size(d, ta.capacity_spec(), gla),
                glb <= tb.height_spec(),
                gob < tb.nslots(glb),
                first_child == self.degree * oa,
                last_child == first_child + self.degree,
                first_child <= child <= last_child,
                (last_child as int) <= ta.nslots(lc),
                (goa * w) == (first_child as int) * wc,
                base == old(out)@.len() as int,
                out@.len() >= base,
                out@.subrange(0, base) == old(out)@,
                forall|j: int|
                    base <= j < out@.len() ==> pair_cond(
                        ta,
                        tb,
                        ordered,
                        gla,
                        goa,
                        glb,
                        gob,
                        #[trigger] out@[j],
                    ) && (out@[j].0 as int) < imin((child as int) * wc, ta.size()),
                forall|p: (usize, usize)|
                    pair_cond(ta, tb, ordered, gla, goa, glb, gob, p) && (p.0 as int) < imin(
                        (child as int) * wc,
                        ta.size(),
                    ) ==> #[trigger] out@.subrange(base, out@.len() as int).contains(p),
                out@.subrange(base, out@.len() as int).no_duplicates(),
            decreases last_child - child,
        {
            let ghost pre = out@;
            let ghost cq = child as int;
            proof {
                vstd::arithmetic::mul::lemma_mul_nonnegative(cq, wc);
                vstd::arithmetic::mul::lemma_mul_is_distributive_add_other_way(wc, cq, 1);
                vstd::arithmetic::mul::lemma_mul_inequality(first_child as int, cq, wc);
                vstd::arithmetic::mul::lemma_mul_inequality(cq + 1, last_child as int, wc);
                lemma_child_span(d, gla, goa, d);
                vstd::arithmetic::mul::lemma_mul_is_distributive_add_other_way(
                    wc,
                    d * goa + d,
                    0,
                );
                assert((last_child as int) * wc == (goa + 1) * w);
            }
            self.pairs_node(other, ordered, child_level, child, lb, ob, out);
            proof {
                let mid = pre.len() as int;
                let len = out@.len() as int;
                assert(out@.subrange(0, base) =~= old(out)@);
                let suf_old = pre.subrange(base, mid);
                let suf_child = out@.subrange(mid, len);
                let suf = out@.subrange(base, len);
                assert(suf =~= suf_old + suf_child);
                // child span sits inside the parent span
                assert(ta.span_lo(lc, cq) == imin(cq * wc, ta.size()));
                assert(ta.span_hi(lc, cq) == imin((cq + 1) * wc, ta.size()));
                assert forall|j: int|
                    base <= j < len implies pair_cond(
                    ta,
                    tb,
                    ordered,
                    gla,
                    goa,
                    glb,
                    gob,
                    #[trigger] out@[j],
                ) && (out@[j].0 as int) < imin((cq + 1) * wc, ta.size()) by {
                    if j < mid {
                        assert(out@[j] == pre[j]);
                    } else {
                        assert(pair_cond(ta, tb, ordered, lc, cq, glb, gob, out@[j]));
                    }
                }
                assert forall|p: (usize, usize)|
                    pair_cond(ta, tb, ordered, gla, goa, glb, gob, p) && (p.0 as int) < imin(
                        (cq + 1) * wc,
                        ta.size(),
                    ) implies #[trigger] out@.subrange(base, out@.len() as int).contains(
                    p,
                ) by {
                    if (p.0 as int) < imin(cq * wc, ta.size()) {
                        assert(suf_old.contains(p));
                        let j = choose|j: int| 0 <= j < suf_old.len() && suf_old[j] == p;
                        assert(suf[j] == p);
                    } else {
                        assert(pair_cond(ta, tb, ordered, lc, cq, glb, gob, p));
                        assert(suf_child.contains(p));
                        let j = choose|j: int|
                            0 <= j < suf_child.len() && suf_child[j] == p;
                        assert(suf[suf_old.len() + j] == p);
                    }
                }
                assert forall|x: (usize, usize)| suf_old.contains(x) implies !suf_child.contains(
                    x,
                ) by {
                    if suf_child.contains(x) {
                        let j = choose|j: int|
                            0 <= j < suf_child.len() && suf_child[j] == x;
                        assert(pair_cond(ta, tb, ordered, lc, cq, glb, gob, suf_child[j]));
                        let j2 = choose|j2: int|
                            0 <= j2 < suf_old.len() && suf_old[j2] == x;
                        assert((x.0 as int) < imin(cq * wc, ta.size()));
                        assert(false);
                    }
                }
                lemma_no_dup_concat(suf_old, suf_child);
                assert(suf.no_duplicates());
            }
            child = child + 1;
        }
        proof {
            lemma_child_span(d, gla, goa, d);
            vstd::arithmetic::mul::lemma_mul_is_distributive_add_other_way(wc, d * goa + d, 0);
            assert((last_child as int) * wc == (goa + 1) * w);
            assert(imin((last_child as int) * wc, ta.size()) == ta.span_hi(gla, goa));
        }
    }

    /// Expand the second tree's node and pair the first node against
    /// each child.
    fn pairs_expand_b(
        &self,
        other: &SegRTree,
        ordered: bool,
        la: usize,
        oa: usize,
        lb: usize,
        ob: usize,
        out: &mut Vec<(usize, usize)>,
    )
        requires
            self.wf(),
            other.wf(),
            1 <= lb,
            la as nat <= self.height_spec(),
            (oa as int) < self.nslots(la as nat),
            lb as nat <= other.height_spec(),
            0 <= (ob as int) < level_size(other.deg(), other.capacity_spec(), lb as nat),
        ensures
            final(out)@.len() >= old(out)@.len(),
            final(out)@.subrange(0, old(out)@.len() as int) == old(out)@,
            forall|j: int|
                old(out)@.len() <= j < final(out)@.len() ==> pair_cond(
                    *self,
                    *other,
                    ordered,
                    la as nat,
                    oa as int,
                    lb as nat,
                    ob as int,
                    #[trigger] final(out)@[j],
                ),
            forall|p: (usize, usize)|
                pair_cond(*self, *other, ordered, la as nat, oa as int, lb as nat, ob as int, p)
                    ==> #[trigger] final(out)@.subrange(
                    old(out)@.len() as int,
                    final(out)@.len() as int,
                ).contains(p),
            final(out)@.subrange(
                old(out)@.len() as int,
                final(out)@.len() as int,
            ).no_duplicates(),
        decreases la + lb, 0int,
    {
        let ghost ta = *self;
        let ghost tb = *other;
        let ghost gla = la as nat;
        let ghost goa = oa as int;
        let ghost glb = lb as nat;
        let ghost gob = ob as int;
        let ghost d = other.deg();
        let ghost w = pow(d, glb);
        let ghost lc = (glb - 1) as nat;
        let ghost wc = pow(d, lc);
        let ghost base = out@.len() as int;
        proof {
            lemma_level_size_bounds(d, tb.capacity_spec(), glb);
            vstd::arithmetic::mul::lemma_mul_upper_bound(d, 128, gob, 0x20_0000);
            vstd::arithmetic::mul::lemma_mul_nonnegative(d, gob);
            lemma_child_nslots(tb, glb, gob);
            lemma_pow_step(d, glb);
            lemma_pow_positive(d, lc);
            lemma_pow_positive(d, glb);
            vstd::arithmetic::mul::lemma_mul_nonnegative(gob, w);
            lemma_child_span(d, glb, gob, 0);
            vstd::arithmetic::mul::lemma_mul_basics(wc);
            vstd::arithmetic::mul::lemma_mul_is_distributive_add_other_way(wc, d * gob, 0);
            assert((d * gob) * wc == gob * w);
        }
        let child_level = lb - 1;
        let first_child = other.degree * ob;
        let last_child = first_child + other.degree;
        let mut child = first_child;
        while child < last_child
            invariant
                ta == *self,
                tb == *other,
                ta.wf(),
                tb.wf(),
                1 <= lb,
                gla == la as nat,
                goa == oa as int,
                glb == lb as nat,
                gob == ob as int,
                d == tb.deg(),
                w == pow(d, glb),
                lc == (glb - 1) as nat,
                wc == pow(d, lc),
                w == wc * d,
                wc >= 1,
                child_level == lb - 1,
                gla <= ta.height_spec(),
                goa < ta.nslots(gla),
                glb <= tb.height_spec(),
                0 <= gob < level_size(d, tb.capacity_spec(), glb),
                first_child == other.degree * ob,
                last_child == first_child + other.degree,
                first_child <= child <= last_child,
                (last_child as int) <= tb.nslots(lc),
                (gob * w) == (first_child as int) * wc,
                base == old(out)@.len() as int,
                out@.len() >= base,
                out@.subrange(0, base) == old(out)@,
                forall|j: int|
                    base <= j < out@.len() ==> pair_cond(
                        ta,
                        tb,
                        ordered,
                        gla,
                        goa,
                        glb,
                        gob,
                        #[trigger] out@[j],
                    ) && (out@[j].1 as int) < imin((child as int) * wc, tb.size()),
                forall|p: (usize, usize)|
                    pair_cond(ta, tb, ordered, gla, goa, glb, gob, p) && (p.1 as int) < imin(
                        (child as int) * wc,
                        tb.size(),
                    ) ==> #[trigger] out@.subrange(base, out@.len() as int).contains(p),
                out@.subrange(base, out@.len() as int).no_duplicates(),
            decreases last_child - child,
        {
            let ghost pre = out@;
            let ghost cq = child as int;
            proof {
                vstd::arithmetic::mul::lemma_mul_nonnegative(cq, wc);
                vstd::arithmetic::mul::lemma_mul_is_distributive_add_other_way(wc, cq, 1);
                vstd::arithmetic::mul::lemma_mul_inequality(first_child as int, cq, wc);
                vstd::arithmetic::mul::lemma_mul_inequality(cq + 1, last_child as int, wc);
                lemma_child_span(d, glb, gob, d);
                vstd::arithmetic::mul::lemma_mul_is_distributive_add_other_way(
                    wc,
                    d * gob + d,
                    0,
                );
                assert((last_child as int) * wc == (gob + 1) * w);
            }
            self.pairs_node(other, ordered, la, oa, child_level, child, out);
            proof {
                let mid = pre.len() as int;
                let len = out@.len() as int;
                assert(out@.subrange(0, base) =~= old(out)@);
                let suf_old = pre.subrange(base, mid);
                let suf_child = out@.subrange(mid, len);
                let suf = out@.subrange(base, len);
                assert(suf =~= suf_old + suf_child);
                assert(tb.span_lo(lc, cq) == imin(cq * wc, tb.size()));
                assert(tb.span_hi(lc, cq) == imin((cq + 1) * wc, tb.size()));
                assert forall|j: int|
                    base <= j < len implies pair_cond(
                    ta,
                    tb,
                    ordered,
                    gla,
                    goa,
                    glb,
                    gob,
                    #[trigger] out@[j],
                ) && (out@[j].1 as int) < imin((cq + 1) * wc, tb.size()) by {
                    if j < mid {
                        assert(out@[j] == pre[j]);
                    } else {
                        assert(pair_cond(ta, tb, ordered, gla, goa, lc, cq, out@[j]));
                    }
                }
                assert forall|p: (usize, usize)|
                    pair_cond(ta, tb, ordered, gla, goa, glb, gob, p) && (p.1 as int) < imin(
                        (cq + 1) * wc,
                        tb.size(),
                    ) implies #[trigger] out@.subrange(base, out@.len() as int).contains(
                    p,
                ) by {
                    if (p.1 as int) < imin(cq * wc, tb.size()) {
                        assert(suf_old.contains(p));
                        let j = choose|j: int| 0 <= j < suf_old.len() && suf_old[j] == p;
                        assert(suf[j] == p);
                    } else {
                        assert(pair_cond(ta, tb, ordered, gla, goa, lc, cq, p));
                        assert(suf_child.contains(p));
                        let j = choose|j: int|
                            0 <= j < suf_child.len() && suf_child[j] == p;
                        assert(suf[suf_old.len() + j] == p);
                    }
                }
                assert forall|x: (usize, usize)| suf_old.contains(x) implies !suf_child.contains(
                    x,
                ) by {
                    if suf_child.contains(x) {
                        let j = choose|j: int|
                            0 <= j < suf_child.len() && suf_child[j] == x;
                        assert(pair_cond(ta, tb, ordered, gla, goa, lc, cq, suf_child[j]));
                        let j2 = choose|j2: int|
                            0 <= j2 < suf_old.len() && suf_old[j2] == x;
                        assert((x.1 as int) < imin(cq * wc, tb.size()));
                        assert(false);
                    }
                }
                lemma_no_dup_concat(suf_old, suf_child);
                assert(suf.no_duplicates());
            }
            child = child + 1;
        }
        proof {
            lemma_child_span(d, glb, gob, d);
            vstd::arithmetic::mul::lemma_mul_is_distributive_add_other_way(wc, d * gob + d, 0);
            assert((last_child as int) * wc == (gob + 1) * w);
            assert(imin((last_child as int) * wc, tb.size()) == tb.span_hi(glb, gob));
        }
    }

    /// Every unordered pair of distinct leaves whose rectangles
    /// intersect, as `(smaller, larger)`, each exactly once.
    pub fn query_self_intersections(&self) -> (r: Vec<(usize, usize)>)
        requires
            self.wf(),
        ensures
            r@.no_duplicates(),
            forall|j: int|
                0 <= j < r@.len() ==> (#[trigger] r@[j].0 as int) < r@[j].1 as int
                    && (r@[j].1 as int) < self.size() && self.leaf_rect(
                    r@[j].0 as int,
                ).spec_intersects(self.leaf_rect(r@[j].1 as int)),
            forall|i: int, j: int|
                0 <= i < j < self.size() && (#[trigger] self.leaf_rect(i)).spec_intersects(
                    #[trigger] self.leaf_rect(j),
                ) ==> r@.contains((i as usize, j as usize)),
    {
        let mut results: Vec<(usize, usize)> = Vec::new();
        if self.is_empty() {
            return results;
        }
        let height = self.current_level;
        let ghost h = self.height_spec();
        proof {
            lemma_nslots_size(*self, h);
            lemma_pow_positive(self.deg(), h);
            vstd::arithmetic::mul::lemma_mul_basics(pow(self.deg(), h));
            assert(self.span_lo(h, 0) == 0);
            assert(self.span_hi(h, 0) == self.size());
        }
        self.pairs_node(self, true, height, 0, height, 0, &mut results);
        proof {
            assert(results@ =~= results@.subrange(0, results@.len() as int));
            assert forall|i: int, j: int|
                0 <= i < j < self.size() && (#[trigger] self.leaf_rect(i)).spec_intersects(
                    #[trigger] self.leaf_rect(j),
                ) implies results@.contains((i as usize, j as usize)) by {
                assert(pair_cond(*self, *self, true, h, 0, h, 0, (i as usize, j as usize)));
            }
        }
        results
    }

    /// Every pair `(i, j)` of a leaf of this tree and a leaf of the
    /// other tree whose rectangles intersect, each exactly once.
    pub fn query_other_intersections(&self, other: &SegRTree) -> (r: Vec<(usize, usize)>)
        requires
            self.wf(),
            other.wf(),
        ensures
            r@.no_duplicates(),
            forall|j: int|
                0 <= j < r@.len() ==> (#[trigger] r@[j].0 as int) < self.size() && (r@[j].1 as int)
                    < other.size() && self.leaf_rect(r@[j].0 as int).spec_intersects(
                    other.leaf_rect(r@[j].1 as int),
                ),
            forall|i: int, j: int|
                0 <= i < self.size() && 0 <= j < other.size() && (#[trigger] self.leaf_rect(
                    i,
                )).spec_intersects(#[trigger] other.leaf_rect(j)) ==> r@.contains(
                    (i as usize, j as usize),
                ),
    {
        let mut results: Vec<(usize, usize)> = Vec::new();
        if self.is_empty() {
            return results;
        }
        if other.is_empty() {
            return results;
        }
        let ghost ha = self.height_spec();
        let ghost hb = other.height_spec();
        proof {
            lemma_nslots_size(*self, ha);
            lemma_pow_positive(self.deg(), ha);
            vstd::arithmetic::mul::lemma_mul_basics(pow(self.deg(), ha));
            assert(self.span_lo(ha, 0) == 0);
            assert(self.span_hi(ha, 0) == self.size());
            lemma_nslots_size(*other, hb);
            lemma_pow_positive(other.deg(), hb);
            vstd::arithmetic::mul::lemma_mul_basics(pow(other.deg(), hb));
            assert(other.span_lo(hb, 0) == 0);
            assert(other.span_hi(hb, 0) == other.size());
        }
        self.pairs_node(other, false, self.current_level, 0, other.current_level, 0, &mut results);
        proof {
            assert(results@ =~= results@.subrange(0, results@.len() as int));
            assert forall|i: int, j: int|
                0 <= i < self.size() && 0 <= j < other.size() && (#[trigger] self.leaf_rect(
                    i,
                )).spec_intersects(#[trigger] other.leaf_rect(j)) implies results@.contains(
                (i as usize, j as usize),
            ) by {
                assert(pair_cond(*self, *other, false, ha, 0, hb, 0, (i as usize, j as usize)));
            }
        }
        results
    }
}

/// Querying a tree by its own envelope returns a permutation of the
/// leaf indices, provided every leaf rectangle is non-empty (which is
/// true of every segment bounding box): a result sequence satisfying
/// `query_rect`'s contract for the envelope is duplicate-free, holds
/// every index below the size, and therefore has exactly the size as
/// its length.
pub proof fn lemma_envelope_query_permutation(t: SegRTree, r: Seq<usize>)
    requires
        t.wf(),
        forall|i: int| 0 <= i < t.size() ==> !(#[trigger] t.leaf_rect(i)).is_empty_spec(),
        r.no_duplicates(),
        forall|j: int|
            0 <= j < r.len() ==> (#[trigger] r[j] as int) < t.size() && t.leaf_rect(
                r[j] as int,
            ).spec_intersects(span_union(t.leaves(), 0, t.size())),
        forall|i: int|
            0 <= i < t.size() && (#[trigger] t.leaf_rect(i)).spec_intersects(
                span_union(t.leaves(), 0, t.size()),
            ) ==> r.contains(i as usize),
    ensures
        r.len() == t.size(),
        forall|i: int| 0 <= i < t.size() ==> #[trigger] r.contains(i as usize),
        forall|j: int| 0 <= j < r.len() ==> (#[trigger] r[j] as int) < t.size(),
{
    lemma_envelope_query_is_all(t);
    assert forall|i: int| 0 <= i < t.size() implies #[trigger] r.contains(i as usize) by {
        assert(t.leaf_rect(i).spec_intersects(span_union(t.leaves(), 0, t.size())));
    }
    // count the indices: the result maps one-to-one onto 0..size
    let ri = r.map_values(|u: usize| u as int);
    assert(ri.no_duplicates()) by {
        assert forall|j1: int, j2: int|
            0 <= j1 < ri.len() && 0 <= j2 < ri.len() && j1 != j2 implies ri[j1] != ri[j2] by {
            assert(r[j1] != r[j2]);
        }
    }
    assert(ri.to_set() =~= vstd::set_lib::set_int_range(0, t.size())) by {
        assert forall|x: int| ri.to_set().contains(x) implies 0 <= x < t.size() by {
            let j = choose|j: int| 0 <= j < ri.len() && ri[j] == x;
        }
        assert forall|x: int|
            0 <= x < t.size() implies ri.to_set().contains(x) by {
            assert(r.contains(x as usize));
            let j = choose|j: int| 0 <= j < r.len() && r[j] == x as usize;
            assert(ri[j] == x);
            assert(ri.to_set().contains(ri[j]));
        }
    }
    ri.unique_seq_to_set();
    vstd::set_lib::lemma_int_range(0, t.size());
    assert(r.len() == ri.len());
}

/// Querying a tree by its own envelope selects every leaf whose
/// rectangle is non-empty: each such leaf is covered by, and therefore
/// intersects, the envelope.  Together with the contract of
/// `query_rect` this pins the result of `query_rect(envelope())` to
/// exactly the set of non-empty leaf indices; for a tree over segment
/// boxes that is all of them.
pub proof fn lemma_envelope_query_is_all(t: SegRTree)
    requires
        t.wf(),
    ensures
        forall|i: int|
            0 <= i < t.size() && !(#[trigger] t.leaf_rect(i)).is_empty_spec() ==> t.leaf_rect(
                i,
            ).spec_intersects(span_union(t.leaves(), 0, t.size())),
{
    assert forall|i: int|
        0 <= i < t.size() && !(#[trigger] t.leaf_rect(i)).is_empty_spec() implies t.leaf_rect(
        i,
    ).spec_intersects(span_union(t.leaves(), 0, t.size())) by {
        assert(forall|q: int| 0 <= q < t.size() ==> (#[trigger] t.leaves()[q]) == t.tree@[q]);
        lemma_span_union_le(t.leaves(), 0, t.size(), i);
        assert(t.leaf_rect(i).spec_intersects(t.leaf_rect(i)));
        lemma_intersects_le(t.leaf_rect(i), span_union(t.leaves(), 0, t.size()), t.leaf_rect(i));
        lemma_merge_comm(t.leaf_rect(i), t.leaf_rect(i));
        assert(span_union(t.leaves(), 0, t.size()).spec_intersects(t.leaf_rect(i)));
        lemma_intersects_le(
            t.leaf_rect(i),
            span_union(t.leaves(), 0, t.size()),
            span_union(t.leaves(), 0, t.size()),
        );
    }
}

/// Number of slots of level `l` in a level table.
pub open spec fn table_slots(d: int, n: int, v: Seq<usize>, l: nat) -> int {
    if l + 1 < v.len() {
        level_start(d, n, (l + 1) as nat) - level_start(d, n, l)
    } else {
        1
    }
}

/// The `d` children of a real node fit inside the child level's slots.
pub proof fn lemma_table_child_slots(d: int, n: int, v: Seq<usize>, l: nat, o: int)
    requires
        2 <= d,
        0 <= n,
        levels_wf(d, n, v),
        1 <= l,
        (l as int) < v.len(),
        0 <= o < level_size(d, n, l),
    ensures
        d * o + d <= table_slots(d, n, v, (l - 1) as nat),
{
    let lc = (l - 1) as nat;
    lemma_level_size_bounds(d, n, lc);
    lemma_ceil_div(level_size(d, n, lc), d);
    vstd::arithmetic::mul::lemma_mul_is_distributive_add_other_way(d, o, 1);
    vstd::arithmetic::mul::lemma_mul_inequality(o + 1, level_size(d, n, l), d);
    vstd::arithmetic::mul::lemma_mul_is_commutative(o + 1, d);
    vstd::arithmetic::mul::lemma_mul_is_commutative(level_size(d, n, l), d);
    assert(table_slots(d, n, v, lc) == level_start(d, n, l) - level_start(d, n, lc));
}

/// Distinct node addresses use distinct flat slots, table form.
pub proof fn lemma_table_slot_distinct(
    d: int,
    n: int,
    v: Seq<usize>,
    l1: nat,
    o1: int,
    l2: nat,
    o2: int,
)
    requires
        2 <= d,
        0 <= n,
        levels_wf(d, n, v),
        (l1 as int) < v.len(),
        (l2 as int) < v.len(),
        0 <= o1 < table_slots(d, n, v, l1),
        0 <= o2 < table_slots(d, n, v, l2),
        (l1, o1) != (l2, o2),
    ensures
        level_start(d, n, l1) + o1 != level_start(d, n, l2) + o2,
{
    if l1 < l2 {
        lemma_start_monotone_table(d, n, (l1 + 1) as nat, l2);
    } else if l2 < l1 {
        lemma_start_monotone_table(d, n, (l2 + 1) as nat, l1);
    }
}

/// The assembled bulk-loaded tree is well-formed.
proof fn lemma_loaded_wf(r: SegRTree, lv: Seq<Rectangle>)
    requires
        2 <= r.deg() <= MAX_DEGREE as int,
        r.capacity_spec() <= MAX_CAPACITY as int,
        r.size() == r.capacity_spec(),
        r.size() == lv.len(),
        levels_wf(r.deg(), r.capacity_spec(), r.level_indices@),
        r.num_levels() <= r.capacity_spec() + 1,
        r.tree@.len() == r.level_indices@[r.num_levels() - 1] + 1,
        r.tree@.len() <= 0x4000_0001,
        r.capacity_spec() <= r.tree@.len(),
        (r.height_spec() as int) == r.num_levels() - 1,
        forall|j: int| 0 <= j < lv.len() ==> (#[trigger] lv[j]).wf(),
        forall|j: int| 0 <= j < r.tree@.len() ==> (#[trigger] r.tree@[j]).wf(),
        forall|lq: nat, oq: int|
            (lq as int) < r.num_levels() && 0 <= oq < table_slots(
                r.deg(),
                r.capacity_spec(),
                r.level_indices@,
                lq,
            ) ==> #[trigger] r.tree@[level_start(r.deg(), r.capacity_spec(), lq) + oq]
                == span_union(
                lv,
                imin(oq * pow(r.deg(), lq), r.size()),
                imin((oq + 1) * pow(r.deg(), lq), r.size()),
            ),
    ensures
        r.wf(),
        r.leaves() == lv,
{
    let d = r.deg();
    let m = r.capacity_spec();
    let n = r.size();
    vstd::arithmetic::power::lemma_pow0(d);
    // the leaf row is exactly lv
    assert forall|i: int| 0 <= i < n implies r.tree@[i] == lv[i] by {
        lemma_nslots_table_size(d, m, r.level_indices@, 0);
        assert(level_start(d, m, 0) == 0);
        assert(level_size(d, m, 0) == m);
        vstd::arithmetic::mul::lemma_mul_basics(i);
        vstd::arithmetic::mul::lemma_mul_basics(i + 1);
        assert(r.tree@[0 + i] == span_union(lv, imin(i * pow(d, 0), n), imin(
            (i + 1) * pow(d, 0),
            n,
        )));
        assert(span_union(lv, i, i + 1) == span_union(lv, i, i).spec_merge(lv[i]));
    }
    assert(r.leaves() =~= lv);
    // height bookkeeping
    let h = r.height_spec();
    lemma_level_size_bounds(d, m, h);
    lemma_padding_span_empty(d, m, h, 1);
    vstd::arithmetic::mul::lemma_mul_basics(pow(d, h));
    if h >= 1 {
        assert(level_size(d, m, (h - 1) as nat) > 1);
        lemma_real_span_nonempty(d, m, (h - 1) as nat, 1);
        vstd::arithmetic::mul::lemma_mul_basics(pow(d, (h - 1) as nat));
    }
    // the two slot classes of wf
    assert forall|l: nat, o: int|
        l <= r.height_spec() && 0 <= o < r.nslots(l) implies #[trigger] r.node_rect(l, o)
        == span_union(r.leaves(), r.span_lo(l, o), r.span_hi(l, o)) by {
        assert(r.nslots(l) == table_slots(d, m, r.level_indices@, l));
        assert(r.tree@[level_start(d, m, l) + o] == span_union(
            lv,
            imin(o * pow(d, l), n),
            imin((o + 1) * pow(d, l), n),
        ));
    }
    assert forall|l: nat, o: int|
        r.height_spec() < l < r.num_levels() && 0 <= o < r.nslots(l)
        implies #[trigger] r.node_rect(l, o) == Rectangle::spec_empty() by {
        assert(false);
    }
}

/// After the leaf copy, level zero matches its spans and everything
/// above is still empty.
proof fn lemma_level_zero_ok(d: int, n: int, lv: Seq<Rectangle>, v: Seq<usize>, tree: Seq<Rectangle>)
    requires
        2 <= d,
        0 <= n,
        lv.len() == n,
        levels_wf(d, n, v),
        tree.len() == v[v.len() - 1] + 1,
        n <= tree.len(),
        forall|j: int| 0 <= j < n ==> #[trigger] tree[j] == lv[j],
        forall|j: int| n <= j < tree.len() ==> #[trigger] tree[j] == Rectangle::spec_empty(),
    ensures
        forall|lq: nat, oq: int|
            lq < 1 && 0 <= oq < table_slots(d, n, v, lq) ==> #[trigger] tree[level_start(d, n, lq)
                + oq] == span_union(lv, imin(oq * pow(d, lq), n), imin((oq + 1) * pow(d, lq), n)),
        forall|lq: nat, oq: int|
            1 <= lq && (lq as int) < v.len() && 0 <= oq < table_slots(d, n, v, lq)
                ==> #[trigger] tree[level_start(d, n, lq) + oq] == Rectangle::spec_empty(),
{
    vstd::arithmetic::power::lemma_pow0(d);
    assert forall|lq: nat, oq: int|
        lq < 1 && 0 <= oq < table_slots(d, n, v, lq) implies #[trigger] tree[level_start(d, n, lq)
        + oq] == span_union(lv, imin(oq * pow(d, lq), n), imin((oq + 1) * pow(d, lq), n)) by {
        assert(lq == 0);
        assert(level_start(d, n, 0) == 0);
        vstd::arithmetic::mul::lemma_mul_basics(oq);
        vstd::arithmetic::mul::lemma_mul_basics(oq + 1);
        lemma_slot_in_table(d, n, v, 0, oq);
        if oq < n {
            assert(span_union(lv, oq, oq + 1) == span_union(lv, oq, oq).spec_merge(lv[oq]));
        }
    }
    assert forall|lq: nat, oq: int|
        1 <= lq && (lq as int) < v.len() && 0 <= oq < table_slots(d, n, v, lq)
        implies #[trigger] tree[level_start(d, n, lq) + oq] == Rectangle::spec_empty() by {
        lemma_slot_in_table(d, n, v, lq, oq);
        lemma_ceil_div(level_size(d, n, 0), d);
        assert(level_start(d, n, 1nat) == level_start(d, n, 0) + d * ceil_div(
            level_size(d, n, 0),
            d,
        ));
        assert(level_start(d, n, 1nat) >= n);
        lemma_start_monotone_table(d, n, 1, lq);
        assert(level_start(d, n, lq) + oq >= n);
    }
}

/// On every level the real nodes fit into the level's slots, table form.
pub proof fn lemma_nslots_table_size(d: int, m: int, v: Seq<usize>, l: nat)
    requires
        2 <= d,
        0 <= m,
        levels_wf(d, m, v),
        (l as int) < v.len(),
    ensures
        level_size(d, m, l) <= table_slots(d, m, v, l),
        table_slots(d, m, v, l) >= 1,
{
    lemma_level_size_bounds(d, m, l);
    lemma_ceil_div(level_size(d, m, l), d);
    if l + 1 < v.len() {
        assert(level_start(d, m, (l + 1) as nat) == level_start(d, m, l) + d * ceil_div(
            level_size(d, m, l),
            d,
        ));
        vstd::arithmetic::mul::lemma_mul_inequality(1, ceil_div(level_size(d, m, l), d), d);
        vstd::arithmetic::mul::lemma_mul_is_commutative(ceil_div(level_size(d, m, l), d), d);
        if level_size(d, m, l) == 0 {
            vstd::arithmetic::mul::lemma_mul_basics(d);
        }
    }
}

/// Children of a real node stay inside the child level's slots.
pub proof fn lemma_child_nslots(t: SegRTree, l: nat, o: int)
    requires
        t.wf(),
        1 <= l <= t.height_spec(),
        0 <= o < level_size(t.deg(), t.capacity_spec(), l),
    ensures
        t.deg() * o + t.deg() <= t.nslots((l - 1) as nat),
{
    let d = t.deg();
    let m = t.capacity_spec();
    let lc = (l - 1) as nat;
    lemma_level_size_bounds(d, m, lc);
    lemma_ceil_div(level_size(d, m, lc), d);
    vstd::arithmetic::mul::lemma_mul_is_distributive_add_other_way(d, o, 1);
    vstd::arithmetic::mul::lemma_mul_inequality(o + 1, level_size(d, m, l), d);
    vstd::arithmetic::mul::lemma_mul_is_commutative(o + 1, d);
    vstd::arithmetic::mul::lemma_mul_is_commutative(level_size(d, m, l), d);
    // the child level's capacity is exactly d * level_size(l)
    if (l as int) < t.num_levels() {
        if (lc as int) + 1 < t.num_levels() {
            assert(t.nslots(lc) == level_start(d, m, l) - level_start(d, m, lc));
        } else {
            assert(false) by {
                assert((lc as int) + 1 == l as int);
                assert((l as int) < t.num_levels());
            }
        }
    }
}

/// `pow` is monotone in the exponent for bases at least one.
/// `pow` is monotone in the exponent for bases at least one.
pub proof fn lemma_pow_mono_le(d: int, l1: nat, l2: nat)
    requires
        1 <= d,
        l1 <= l2,
    ensures
        pow(d, l1) <= pow(d, l2),
    decreases l2 - l1,
{
    if l1 < l2 {
        lemma_pow_mono_le(d, l1, (l2 - 1) as nat);
        lemma_pow_step(d, l2);
        lemma_pow_positive(d, (l2 - 1) as nat);
        vstd::arithmetic::mul::lemma_mul_inequality(1, d, pow(d, (l2 - 1) as nat));
        vstd::arithmetic::mul::lemma_mul_is_commutative(pow(d, (l2 - 1) as nat), d);
    }
}

/// The leaf row fits below the root slot of a well-formed level table.
pub proof fn lemma_capacity_fits(d: int, m: int, v: Seq<usize>)
    requires
        2 <= d,
        0 <= m,
        levels_wf(d, m, v),
    ensures
        m <= v[v.len() - 1] + 1,
{
    if v.len() == 1 {
        assert(level_size(d, m, 0) == m);
        assert(level_start(d, m, 0) == 0);
    } else {
        lemma_ceil_div(m, d);
        assert(level_size(d, m, 0) == m);
        assert(level_start(d, m, 0) == 0);
        assert(level_start(d, m, 1nat) == level_start(d, m, 0) + d * ceil_div(
            level_size(d, m, 0),
            d,
        ));
        lemma_start_monotone_table(d, m, 1, (v.len() - 1) as nat);
    }
}

/// Within a well-formed level table every slot lands inside the array.
pub proof fn lemma_slot_in_table(d: int, m: int, v: Seq<usize>, l: nat, o: int)
    requires
        2 <= d,
        0 <= m,
        levels_wf(d, m, v),
        l < v.len(),
        0 <= o,
        l + 1 < v.len() ==> o < level_start(d, m, (l + 1) as nat) - level_start(d, m, l),
        l + 1 >= v.len() ==> o < 1,
    ensures
        0 <= level_start(d, m, l) + o <= v[v.len() - 1] as int,
{
    lemma_level_start_nonneg(d, m, l);
    if l + 1 < v.len() {
        lemma_start_monotone_table(d, m, (l + 1) as nat, (v.len() - 1) as nat);
    }
}

/// Level starts are monotone in the level.
pub proof fn lemma_start_monotone_table(d: int, m: int, l1: nat, l2: nat)
    requires
        2 <= d,
        0 <= m,
        l1 <= l2,
    ensures
        level_start(d, m, l1) <= level_start(d, m, l2),
    decreases l2 - l1,
{
    if l1 < l2 {
        lemma_start_monotone_table(d, m, l1, (l2 - 1) as nat);
        lemma_level_size_bounds(d, m, (l2 - 1) as nat);
        lemma_ceil_div(level_size(d, m, (l2 - 1) as nat), d);
        vstd::arithmetic::mul::lemma_mul_nonnegative(
            d,
            ceil_div(level_size(d, m, (l2 - 1) as nat), d),
        );
    }
}

/// Level starts are non-negative.
pub proof fn lemma_level_start_nonneg(d: int, n: int, l: nat)
    requires
        2 <= d,
        0 <= n,
    ensures
        level_start(d, n, l) >= 0,
    decreases l,
{
    if l > 0 {
        lemma_level_start_nonneg(d, n, (l - 1) as nat);
        lemma_level_size_bounds(d, n, (l - 1) as nat);
        lemma_ceil_div(level_size(d, n, (l - 1) as nat), d);
        vstd::arithmetic::mul::lemma_mul_nonnegative(
            d,
            ceil_div(level_size(d, n, (l - 1) as nat), d),
        );
    }
}

/// On every level the real nodes fit into the level's slots.
pub proof fn lemma_nslots_size(t: SegRTree, l: nat)
    requires
        t.wf(),
        (l as int) < t.num_levels(),
    ensures
        level_size(t.deg(), t.capacity_spec(), l) <= t.nslots(l),
        t.nslots(l) >= 1,
{
    let d = t.deg();
    let m = t.capacity_spec();
    lemma_level_size_bounds(d, m, l);
    lemma_ceil_div(level_size(d, m, l), d);
    if l + 1 < t.num_levels() {
        assert(level_start(d, m, (l + 1) as nat) == level_start(d, m, l) + d * ceil_div(
            level_size(d, m, l),
            d,
        ));
    } else {
        // top level: a single slot, and the level size is at most one
    }
}

} // verus!

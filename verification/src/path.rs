use vstd::prelude::*;

use crate::coordinate::Coordinate;
use crate::layout::MAX_CAPACITY;
use crate::rectangle::Rectangle;
use crate::rtree::{span_union, SegRTree};
use crate::winding::{
    lemma_contrib_right_of, lemma_contrib_zero_off, lemma_winding_collapse,
    lemma_winding_sum_bound, lemma_winding_sum_split, spec_on_segment, winding_contrib,
    winding_position, winding_sum, WindingPosition,
};

verus! {

/// Where a point stands with respect to a closed ring.
#[derive(Clone, Copy, Debug, PartialEq, Eq, Structural)]
pub enum ContainRelation {
    Exterior,
    Boundary,
    Interior,
}

/// A polyline with the packed tree over its segments' bounding boxes.
///
/// The tree is sealed at construction: leaf `i` holds the bounding box
/// of the segment from `coords[i]` to `coords[i+1]`.
#[derive(Debug)]
pub struct SegmentPath {
    coords: Vec<Coordinate>,
    rtree: SegRTree,
}

impl SegmentPath {
    pub closed spec fn coords_spec(self) -> Seq<Coordinate> {
        self.coords@
    }

    pub closed spec fn rtree_spec(self) -> SegRTree {
        self.rtree
    }

    /// The coordinates, the tree and the link between them: one leaf
    /// box per segment, every coordinate in range.
    pub open spec fn wf(self) -> bool {
        &&& self.rtree_spec().wf()
        &&& self.coords_spec().len() == 0 ==> self.rtree_spec().size() == 0
        &&& self.coords_spec().len() >= 1 ==> self.rtree_spec().size() == self.coords_spec().len()
            - 1
        &&& forall|i: int|
            0 <= i < self.rtree_spec().size() ==> #[trigger] self.rtree_spec().leaf_rect(i)
                == Rectangle::spec_new(self.coords_spec()[i], self.coords_spec()[i + 1])
        &&& forall|i: int|
            0 <= i < self.coords_spec().len() ==> (#[trigger] self.coords_spec()[i]).in_range()
    }

    /// True when the path is a closed loop.
    pub open spec fn is_closed_spec(self) -> bool {
        self.coords_spec().len() >= 2 && self.coords_spec()[0] == self.coords_spec()[
            self.coords_spec().len() - 1
        ]
    }

    pub fn coords(&self) -> (r: &Vec<Coordinate>)
        ensures
            r@ == self.coords_spec(),
    {
        &self.coords
    }

    pub fn rtree(&self) -> (r: &SegRTree)
        ensures
            *r == self.rtree_spec(),
    {
        &self.rtree
    }

    /// Build the segment tree for a coordinate sequence.
    pub fn new(coords: Vec<Coordinate>) -> (r: SegmentPath)
        requires
            coords@.len() <= MAX_CAPACITY,
            forall|i: int| 0 <= i < coords@.len() ==> (#[trigger] coords@[i]).in_range(),
        ensures
            r.wf(),
            r.coords_spec() == coords@,
    {
        if coords.len() == 0 {
            let rtree = SegRTree::new_empty();
            return SegmentPath { coords, rtree };
        }
        let n_segments = coords.len() - 1;
        let mut rects: Vec<Rectangle> = Vec::new();
        let mut i: usize = 0;
        while i < n_segments
            invariant
                n_segments == coords@.len() - 1,
                coords@.len() <= MAX_CAPACITY,
                i <= n_segments,
                rects@.len() == i,
                forall|j: int|
                    0 <= j < i ==> #[trigger] rects@[j] == Rectangle::spec_new(
                        coords@[j],
                        coords@[j + 1],
                    ),
                forall|j: int| 0 <= j < rects@.len() ==> (#[trigger] rects@[j]).wf(),
            decreases n_segments - i,
        {
            rects.push(Rectangle::new(coords[i], coords[i + 1]));
            i += 1;
        }
        let rtree = SegRTree::new_loaded(16, &rects);
        SegmentPath { coords, rtree }
    }
}

/// Ray predicate for the point-in-ring descent: the node's rectangle
/// reaches the point's vertical line from the right and straddles the
/// ray's height.
pub open spec fn ray_pred(p: Coordinate, r: Rectangle) -> bool {
    &&& !r.is_empty_spec()
    &&& p.x as int <= r.xmax()
    &&& r.ymin() <= p.y as int <= r.ymax()
}

/// Every coordinate of the chain under a node lies inside the node's
/// rectangle.
pub(crate) proof fn lemma_chain_in_node(path: SegmentPath, level: nat, offset: int, k: int)
    requires
        path.wf(),
        level <= path.rtree_spec().height_spec(),
        0 <= offset < path.rtree_spec().nslots(level),
        path.rtree_spec().span_lo(level, offset) <= k <= path.rtree_spec().span_hi(level, offset),
        path.rtree_spec().span_lo(level, offset) < path.rtree_spec().span_hi(level, offset),
    ensures
        path.rtree_spec().node_rect(level, offset).spec_contains_pt(path.coords_spec()[k]),
{
    let t = path.rtree_spec();
    let lo = t.span_lo(level, offset);
    let hi = t.span_hi(level, offset);
    t.lemma_wf_basics();
    t.lemma_node_is_span(level, offset);
    vstd::arithmetic::power::lemma_pow_positive(t.deg(), level);
    vstd::arithmetic::mul::lemma_mul_nonnegative(offset, vstd::arithmetic::power::pow(t.deg(), level));
    let seg = if k < hi {
        k
    } else {
        k - 1
    };
    crate::rtree::lemma_span_union_le(t.leaves(), lo, hi, seg);
    assert(path.rtree_spec().leaf_rect(seg) == Rectangle::spec_new(
        path.coords_spec()[seg],
        path.coords_spec()[seg + 1],
    ));
    assert(t.leaf_rect(seg).spec_contains_pt(path.coords_spec()[k]));
    crate::rectangle::lemma_contains_pt_le(
        t.leaf_rect(seg),
        t.node_rect(level, offset),
        path.coords_spec()[k],
    );
}

/// Under a node that fails the ray predicate no segment contributes to
/// the winding number and none carries the point.
proof fn lemma_pruned_node_zero(path: SegmentPath, p: Coordinate, level: nat, offset: int)
    requires
        path.wf(),
        level <= path.rtree_spec().height_spec(),
        0 <= offset < path.rtree_spec().nslots(level),
        !ray_pred(p, path.rtree_spec().node_rect(level, offset)),
    ensures
        winding_sum(
            p,
            path.coords_spec(),
            path.rtree_spec().span_lo(level, offset),
            path.rtree_spec().span_hi(level, offset),
        ) == 0,
        forall|i: int|
            path.rtree_spec().span_lo(level, offset) <= i < path.rtree_spec().span_hi(
                level,
                offset,
            ) ==> !#[trigger] spec_on_segment(p, path.coords_spec()[i], path.coords_spec()[i + 1]),
{
    let t = path.rtree_spec();
    let cs = path.coords_spec();
    let lo = t.span_lo(level, offset);
    let hi = t.span_hi(level, offset);
    let rect = t.node_rect(level, offset);
    if lo >= hi {
        assert(winding_sum(p, cs, lo, hi) == 0);
    } else {
        assert forall|i: int|
            lo <= i < hi implies #[trigger] winding_contrib(p, cs[i], cs[i + 1]) == 0 by {
            lemma_chain_in_node(path, level, offset, i);
            lemma_chain_in_node(path, level, offset, i + 1);
            if rect.is_empty_spec() {
                assert(false);
            }
            lemma_contrib_zero_off(p, cs[i], cs[i + 1]);
        }
        assert forall|i: int|
            lo <= i < hi implies !#[trigger] spec_on_segment(p, cs[i], cs[i + 1]) by {
            lemma_chain_in_node(path, level, offset, i);
            lemma_chain_in_node(path, level, offset, i + 1);
            if rect.is_empty_spec() {
                assert(false);
            }
            lemma_contrib_zero_off(p, cs[i], cs[i + 1]);
        }
        lemma_winding_zero_range(p, cs, lo, hi);
    }
}

/// A range of zero contributions sums to zero.
proof fn lemma_winding_zero_range(p: Coordinate, cs: Seq<Coordinate>, lo: int, hi: int)
    requires
        lo <= hi,
        forall|i: int| lo <= i < hi ==> #[trigger] winding_contrib(p, cs[i], cs[i + 1]) == 0,
    ensures
        winding_sum(p, cs, lo, hi) == 0,
    decreases hi - lo,
{
    if lo < hi {
        lemma_winding_zero_range(p, cs, lo, hi - 1);
        assert(winding_contrib(p, cs[hi - 1], cs[hi - 1 + 1]) == 0);
        assert(cs[hi - 1 + 1] == cs[hi]);
    }
}

impl SegmentPath {
    /// Winding contribution of the subtree at `(level, offset)`:
    /// `None` when the point lies on one of its segments, otherwise the
    /// winding sum over its leaf span.  Subtrees strictly right of the
    /// point collapse to a single virtual segment between the span's
    /// boundary coordinates.
    fn winding_visit(&self, p: Coordinate, level: usize, offset: usize) -> (r: Option<i64>)
        requires
            self.wf(),
            p.in_range(),
            level as nat <= self.rtree_spec().height_spec(),
            (offset as int) < self.rtree_spec().nslots(level as nat),
            ray_pred(p, self.rtree_spec().node_rect(level as nat, offset as int)),
        ensures
            (r is None) == exists|i: int|
                self.rtree_spec().span_lo(level as nat, offset as int) <= i < self.rtree_spec()
                    .span_hi(level as nat, offset as int) && #[trigger] spec_on_segment(
                    p,
                    self.coords_spec()[i],
                    self.coords_spec()[i + 1],
                ),
            r matches Some(w) ==> w as int == winding_sum(
                p,
                self.coords_spec(),
                self.rtree_spec().span_lo(level as nat, offset as int),
                self.rtree_spec().span_hi(level as nat, offset as int),
            ) && -0x20_0000 <= w as int <= 0x20_0000,
        decreases level,
    {
        let ghost t = self.rtree_spec();
        let ghost cs = self.coords_spec();
        let ghost l = level as nat;
        let ghost o = offset as int;
        let ghost lo = t.span_lo(l, o);
        let ghost hi = t.span_hi(l, o);
        proof {
            t.lemma_wf_basics();
        }
        let rect = self.rtree.get_rectangle(level, offset);
        proof {
            t.lemma_nonempty_is_real(l, o);
            lemma_winding_sum_bound(p, cs, lo, hi);
        }
        if rect.x_min() > p.x {
            // the whole chain is strictly right of the point
            let (low, high) = self.rtree.get_low_high(level, offset);
            proof {
                assert(low as int == lo);
                assert(high as int == hi);
                assert(hi <= t.size());
                assert(cs.len() == t.size() + 1);
                assert forall|k: int| lo <= k <= hi implies p.x < (#[trigger] cs[k]).x by {
                    lemma_chain_in_node(*self, l, o, k);
                }
                lemma_winding_collapse(p, cs, lo, hi);
            }
            let pos = winding_position(p, self.coords[low], self.coords[high]);
            match pos {
                WindingPosition::On => {
                    proof {
                        lemma_contrib_right_of(p, cs[lo as int], cs[hi as int]);
                        assert(false);
                    }
                    Some(0)
                },
                WindingPosition::Left => Some(1),
                WindingPosition::Right => Some(-1),
                WindingPosition::Off => Some(0),
            }
        } else if level == 0 {
            proof {
                vstd::arithmetic::power::lemma_pow0(t.deg());
                vstd::arithmetic::mul::lemma_mul_basics(o);
                vstd::arithmetic::mul::lemma_mul_basics(o + 1);
                assert(lo == o && hi == o + 1);
                assert(winding_sum(p, cs, o, o) == 0);
                assert(cs[o + 1 - 1] == cs[o]);
                assert(winding_sum(p, cs, o, o + 1) == winding_sum(p, cs, o, o + 1 - 1)
                    + winding_contrib(p, cs[o + 1 - 1], cs[o + 1]));
                assert(winding_sum(p, cs, o, o + 1) == winding_contrib(p, cs[o], cs[o + 1]));
                assert(cs.len() == t.size() + 1);
            }
            let pos = winding_position(p, self.coords[offset], self.coords[offset + 1]);
            match pos {
                WindingPosition::On => None,
                WindingPosition::Left => Some(1),
                WindingPosition::Right => Some(-1),
                WindingPosition::Off => Some(0),
            }
        } else {
            let child_level = level - 1;
            let ghost lc = (l - 1) as nat;
            let ghost d = t.deg();
            let ghost wc = vstd::arithmetic::power::pow(d, lc);
            proof {
                t.lemma_descend(l, o);
            }
            let first_child = self.rtree.degree() * offset;
            let last_child = first_child + self.rtree.degree();
            let mut child = first_child;
            let mut acc: i64 = 0;
            while child < last_child
                invariant
                    self.wf(),
                    p.in_range(),
                    t == self.rtree_spec(),
                    cs == self.coords_spec(),
                    l == level as nat,
                    o == offset as int,
                    level >= 1,
                    child_level == level - 1,
                    lc == (l - 1) as nat,
                    d == t.deg(),
                    wc == vstd::arithmetic::power::pow(d, lc),
                    wc >= 1,
                    l <= t.height_spec(),
                    0 <= o < crate::layout::level_size(d, t.capacity_spec(), l),
                    lo == t.span_lo(l, o),
                    hi == t.span_hi(l, o),
                    first_child as int == t.deg() * o,
                    last_child as int == first_child as int + t.deg(),
                    first_child <= child <= last_child,
                    (last_child as int) <= t.nslots(lc),
                    lo == crate::rtree::imin((first_child as int) * wc, t.size()),
                    hi == crate::rtree::imin((last_child as int) * wc, t.size()),
                    acc as int == winding_sum(
                        p,
                        cs,
                        lo,
                        crate::rtree::imin((child as int) * wc, t.size()),
                    ),
                    -0x20_0000 <= acc as int <= 0x20_0000,
                    forall|i: int|
                        lo <= i < crate::rtree::imin((child as int) * wc, t.size())
                            ==> !#[trigger] spec_on_segment(p, cs[i], cs[i + 1]),
                decreases last_child - child,
            {
                let ghost cq = child as int;
                let ghost mid = crate::rtree::imin(cq * wc, t.size());
                let ghost mid2 = crate::rtree::imin((cq + 1) * wc, t.size());
                proof {
                    t.lemma_wf_basics();
                    vstd::arithmetic::mul::lemma_mul_nonnegative(cq, wc);
                    vstd::arithmetic::mul::lemma_mul_is_distributive_add_other_way(wc, cq, 1);
                    vstd::arithmetic::mul::lemma_mul_inequality(first_child as int, cq, wc);
                    vstd::arithmetic::mul::lemma_mul_inequality(cq + 1, last_child as int, wc);
                    assert(t.span_lo(lc, cq) == mid);
                    assert(t.span_hi(lc, cq) == mid2);
                    lemma_winding_sum_split(p, cs, lo, mid, mid2);
                    lemma_winding_sum_bound(p, cs, lo, mid2);
                    lemma_winding_sum_bound(p, cs, mid, mid2);
                }
                let child_rect = self.rtree.get_rectangle(child_level, child);
                let in_play = !child_rect.is_empty() && p.x <= child_rect.x_max()
                    && child_rect.y_min() <= p.y && p.y <= child_rect.y_max();
                if in_play {
                    let sub = self.winding_visit(p, child_level, child);
                    match sub {
                        Option::None => {
                            proof {
                                let i = choose|i: int|
                                    mid <= i < mid2 && #[trigger] spec_on_segment(
                                        p,
                                        cs[i],
                                        cs[i + 1],
                                    );
                                assert(lo <= i < hi);
                            }
                            return None;
                        },
                        Option::Some(w) => {
                            acc = acc + w;
                        },
                    }
                } else {
                    proof {
                        lemma_pruned_node_zero(*self, p, lc, cq);
                    }
                }
                proof {
                    assert(acc as int == winding_sum(p, cs, lo, mid2));
                    assert forall|i: int|
                        lo <= i < mid2 implies !#[trigger] spec_on_segment(
                        p,
                        cs[i],
                        cs[i + 1],
                    ) by {
                    }
                }
                child = child + 1;
            }
            Some(acc)
        }
    }

    /// Classify a point against a closed ring by ray casting with
    /// winding numbers: `Boundary` exactly when the point lies on some
    /// segment, otherwise `Interior` exactly when the winding number of
    /// the ring around the point is non-zero.
    pub fn point_in_ring(&self, point: Coordinate) -> (r: ContainRelation)
        requires
            self.wf(),
            point.in_range(),
            self.is_closed_spec(),
        ensures
            (r == ContainRelation::Boundary) == exists|i: int|
                0 <= i < self.coords_spec().len() - 1 && #[trigger] spec_on_segment(
                    point,
                    self.coords_spec()[i],
                    self.coords_spec()[i + 1],
                ),
            r != ContainRelation::Boundary ==> (r == ContainRelation::Interior) == (winding_sum(
                point,
                self.coords_spec(),
                0,
                self.coords_spec().len() - 1,
            ) != 0),
    {
        let ghost t = self.rtree_spec();
        let ghost cs = self.coords_spec();
        let ghost n = cs.len() - 1;
        let env = self.rtree.envelope();
        proof {
            assert(t.size() == n);
            t.lemma_root_span();
        }
        if !env.contains_pt(point) {
            proof {
                lemma_outside_envelope(*self, point, env);
            }
            return ContainRelation::Exterior;
        }
        let height = self.rtree.height();
        let ghost h = t.height_spec();
        proof {
            assert(env == t.node_rect(h, 0));
            assert(ray_pred(point, t.node_rect(h, 0)));
        }
        let sub = self.winding_visit(point, height, 0);
        match sub {
            Option::None => ContainRelation::Boundary,
            Option::Some(w) => {
                if w != 0 {
                    ContainRelation::Interior
                } else {
                    ContainRelation::Exterior
                }
            },
        }
    }

    /// True when the point is inside or on the closed ring.
    pub fn contains(&self, point: Coordinate) -> (r: bool)
        requires
            self.wf(),
            point.in_range(),
            self.is_closed_spec(),
        ensures
            r == ((exists|i: int|
                0 <= i < self.coords_spec().len() - 1 && #[trigger] spec_on_segment(
                    point,
                    self.coords_spec()[i],
                    self.coords_spec()[i + 1],
                )) || winding_sum(point, self.coords_spec(), 0, self.coords_spec().len() - 1)
                != 0),
    {
        let rel = self.point_in_ring(point);
        match rel {
            ContainRelation::Exterior => false,
            ContainRelation::Boundary => true,
            ContainRelation::Interior => true,
        }
    }
}

/// A point outside the envelope of a closed ring is on no segment and
/// has winding number zero.
proof fn lemma_outside_envelope(path: SegmentPath, p: Coordinate, env: Rectangle)
    requires
        path.wf(),
        path.is_closed_spec(),
        env == span_union(
            path.rtree_spec().leaves(),
            0,
            path.rtree_spec().size(),
        ),
        env.wf(),
        !env.spec_contains_pt(p),
    ensures
        winding_sum(p, path.coords_spec(), 0, path.coords_spec().len() - 1) == 0,
        forall|i: int|
            0 <= i < path.coords_spec().len() - 1 ==> !#[trigger] spec_on_segment(
                p,
                path.coords_spec()[i],
                path.coords_spec()[i + 1],
            ),
{
    let t = path.rtree_spec();
    let cs = path.coords_spec();
    let n = cs.len() - 1;
    assert(t.size() == n);
    t.lemma_wf_basics();
    // every coordinate lies inside the envelope
    assert forall|k: int| 0 <= k <= n implies env.spec_contains_pt(#[trigger] cs[k]) by {
        let seg = if k < n {
            k
        } else {
            k - 1
        };
        crate::rtree::lemma_span_union_le(t.leaves(), 0, n as int, seg);
        assert(t.leaf_rect(seg) == Rectangle::spec_new(cs[seg], cs[seg + 1]));
        crate::rectangle::lemma_contains_pt_le(t.leaf_rect(seg), env, cs[k]);
    }
    assert(!env.is_empty_spec());
    if (p.x as int) < env.xmin() {
        // strictly left of everything: the closed chain telescopes to zero
        assert forall|k: int| 0 <= k <= n implies p.x < (#[trigger] cs[k]).x by {}
        lemma_winding_collapse(p, cs, 0, n as int);
        lemma_contrib_right_of(p, cs[0], cs[n as int]);
        assert(cs[0] == cs[n as int]);
    } else {
        assert forall|i: int|
            0 <= i < n implies #[trigger] winding_contrib(p, cs[i], cs[i + 1]) == 0 by {
            lemma_contrib_zero_off(p, cs[i], cs[i + 1]);
        }
        assert forall|i: int|
            0 <= i < n implies !#[trigger] spec_on_segment(p, cs[i], cs[i + 1]) by {
            lemma_contrib_zero_off(p, cs[i], cs[i + 1]);
        }
        lemma_winding_zero_range(p, cs, 0, n as int);
    }
}

} // verus!

use vstd::prelude::*;

use crate::coordinate::{lemma_product_bound, Coordinate};

verus! {

/// Where a query point stands relative to one directed segment when a
/// horizontal ray is cast to the right.
#[derive(Clone, Copy, Debug, PartialEq, Eq, Structural)]
pub enum WindingPosition {
    /// The segment crosses the ray upward with the point strictly to
    /// its left: winding contribution +1.
    Left,
    /// The segment crosses the ray downward with the point strictly to
    /// its left: winding contribution -1.
    Right,
    /// The point lies on the closed segment.
    On,
    /// No crossing: winding contribution 0.
    Off,
}

/// The doubled signed area of the triangle (s, e, p): positive when p
/// lies strictly left of the directed segment s -> e.
pub open spec fn spec_side(p: Coordinate, s: Coordinate, e: Coordinate) -> int {
    (e.x - s.x) * (p.y - s.y) - (e.y - s.y) * (p.x - s.x)
}

/// True when p lies on the closed segment from s to e.
pub open spec fn spec_on_segment(p: Coordinate, s: Coordinate, e: Coordinate) -> bool {
    &&& spec_side(p, s, e) == 0
    &&& (s.x <= p.x <= e.x || e.x <= p.x <= s.x)
    &&& (s.y <= p.y <= e.y || e.y <= p.y <= s.y)
}

/// The winding contribution of the segment s -> e with respect to the
/// rightward ray from p: +1 for an upward crossing with p strictly to
/// the left, -1 for the symmetric downward crossing, else 0.  The
/// half-open rule (`<=` below, `>` above) keeps shared vertices from
/// being counted twice.
pub open spec fn winding_contrib(p: Coordinate, s: Coordinate, e: Coordinate) -> int {
    if s.y <= p.y && e.y > p.y && spec_side(p, s, e) > 0 {
        1
    } else if s.y > p.y && e.y <= p.y && spec_side(p, s, e) < 0 {
        -1
    } else {
        0
    }
}

/// Sum of the winding contributions of the segments
/// `(cs[i], cs[i+1])` for `i` in `[lo, hi)`.
pub open spec fn winding_sum(p: Coordinate, cs: Seq<Coordinate>, lo: int, hi: int) -> int
    decreases hi - lo,
{
    if lo >= hi {
        0
    } else {
        winding_sum(p, cs, lo, hi - 1) + winding_contrib(p, cs[hi - 1], cs[hi])
    }
}

/// Winding sums add over adjacent ranges.
pub proof fn lemma_winding_sum_split(p: Coordinate, cs: Seq<Coordinate>, lo: int, mid: int, hi: int)
    requires
        lo <= mid <= hi,
    ensures
        winding_sum(p, cs, lo, hi) == winding_sum(p, cs, lo, mid) + winding_sum(p, cs, mid, hi),
    decreases hi - mid,
{
    if mid < hi {
        lemma_winding_sum_split(p, cs, lo, mid, hi - 1);
    }
}

/// A winding sum is bounded by the number of segments it covers.
pub proof fn lemma_winding_sum_bound(p: Coordinate, cs: Seq<Coordinate>, lo: int, hi: int)
    requires
        lo <= hi,
    ensures
        -(hi - lo) <= winding_sum(p, cs, lo, hi) <= hi - lo,
    decreases hi - lo,
{
    if lo < hi {
        lemma_winding_sum_bound(p, cs, lo, hi - 1);
    }
}

/// Indicator: the point sits strictly below the coordinate.
pub open spec fn step_above(p: Coordinate, v: Coordinate) -> int {
    if v.y > p.y {
        1
    } else {
        0
    }
}

/// For a segment strictly to the right of the query point the winding
/// contribution depends only on which endpoints lie above the ray.
pub proof fn lemma_contrib_right_of(p: Coordinate, s: Coordinate, e: Coordinate)
    requires
        p.x < s.x,
        p.x < e.x,
    ensures
        winding_contrib(p, s, e) == step_above(p, e) - step_above(p, s),
        !spec_on_segment(p, s, e),
{
    if s.y <= p.y && e.y > p.y {
        assert(spec_side(p, s, e) > 0) by (nonlinear_arith)
            requires
                s.y <= p.y,
                e.y > p.y,
                p.x < s.x,
                p.x < e.x,
        {
        }
    }
    if s.y > p.y && e.y <= p.y {
        assert(spec_side(p, s, e) < 0) by (nonlinear_arith)
            requires
                s.y > p.y,
                e.y <= p.y,
                p.x < s.x,
                p.x < e.x,
        {
        }
    }
}

/// A chain of coordinates strictly right of the point winds like the
/// single segment from its first to its last coordinate.
pub proof fn lemma_winding_collapse(p: Coordinate, cs: Seq<Coordinate>, lo: int, hi: int)
    requires
        0 <= lo <= hi,
        hi < cs.len(),
        forall|k: int| lo <= k <= hi ==> p.x < (#[trigger] cs[k]).x,
    ensures
        winding_sum(p, cs, lo, hi) == step_above(p, cs[hi]) - step_above(p, cs[lo]),
        winding_sum(p, cs, lo, hi) == winding_contrib(p, cs[lo], cs[hi]),
        forall|k: int| lo <= k < hi ==> !#[trigger] spec_on_segment(p, cs[k], cs[k + 1]),
    decreases hi - lo,
{
    if lo < hi {
        lemma_winding_collapse(p, cs, lo, hi - 1);
        lemma_contrib_right_of(p, cs[hi - 1], cs[hi]);
    }
    lemma_contrib_right_of(p, cs[lo], cs[hi]);
    assert forall|k: int| lo <= k < hi implies !#[trigger] spec_on_segment(p, cs[k], cs[k + 1]) by {
        lemma_contrib_right_of(p, cs[k], cs[k + 1]);
    }
}

/// A segment whose bounding box fails the ray test contributes nothing
/// and cannot carry the point: the box is strictly left of the point,
/// strictly above it, or strictly below it.
pub proof fn lemma_contrib_zero_off(p: Coordinate, s: Coordinate, e: Coordinate)
    requires
        (s.x < p.x && e.x < p.x) || (s.y < p.y && e.y < p.y) || (s.y > p.y && e.y > p.y),
    ensures
        winding_contrib(p, s, e) == 0,
        !spec_on_segment(p, s, e),
{
    if s.x < p.x && e.x < p.x {
        if s.y <= p.y && e.y > p.y && spec_side(p, s, e) > 0 {
            assert(spec_side(p, s, e) < 0) by (nonlinear_arith)
                requires
                    s.y <= p.y,
                    e.y > p.y,
                    p.x > s.x,
                    p.x > e.x,
            {
        }
        }
        if s.y > p.y && e.y <= p.y && spec_side(p, s, e) < 0 {
            assert(spec_side(p, s, e) > 0) by (nonlinear_arith)
                requires
                    s.y > p.y,
                    e.y <= p.y,
                    p.x > s.x,
                    p.x > e.x,
            {
        }
        }
    }
}

/// Classify one directed segment against the rightward ray from `p`.
pub fn winding_position(p: Coordinate, s: Coordinate, e: Coordinate) -> (r: WindingPosition)
    requires
        p.in_range(),
        s.in_range(),
        e.in_range(),
    ensures
        (r == WindingPosition::On) == spec_on_segment(p, s, e),
        r == WindingPosition::Left ==> winding_contrib(p, s, e) == 1,
        r == WindingPosition::Right ==> winding_contrib(p, s, e) == -1,
        r == WindingPosition::Off ==> winding_contrib(p, s, e) == 0,
        r != WindingPosition::On ==> (r == WindingPosition::Left) == (winding_contrib(p, s, e)
            == 1) && (r == WindingPosition::Right) == (winding_contrib(p, s, e) == -1),
    {
    proof {
        lemma_product_bound(e.x - s.x, p.y - s.y);
        lemma_product_bound(e.y - s.y, p.x - s.x);
    }
    let side = (e.x - s.x) * (p.y - s.y) - (e.y - s.y) * (p.x - s.x);
    if side == 0 && (s.x <= p.x && p.x <= e.x || e.x <= p.x && p.x <= s.x) && (s.y <= p.y && p.y
        <= e.y || e.y <= p.y && p.y <= s.y) {
        return WindingPosition::On;
    }
    if s.y <= p.y && e.y > p.y && side > 0 {
        WindingPosition::Left
    } else if s.y > p.y && e.y <= p.y && side < 0 {
        WindingPosition::Right
    } else {
        WindingPosition::Off
    }
}

} // verus!

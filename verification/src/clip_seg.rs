use vstd::prelude::*;

use crate::coordinate::{lemma_product_bound, Coordinate};
use crate::rectangle::Rectangle;
use crate::seg_isect::{rat_bounded, RatCoord};

verus! {

/// The point at parameter `tn / td` along the segment from `s` to `e`,
/// as an exact rational coordinate.
pub open spec fn spec_seg_point(s: Coordinate, e: Coordinate, tn: int, td: int) -> RatCoord {
    RatCoord {
        x_num: (s.x * td + tn * (e.x - s.x)) as i128,
        y_num: (s.y * td + tn * (e.y - s.y)) as i128,
        den: td as i128,
    }
}

/// The rational point lies inside or on the rectangle.
pub open spec fn rat_in_rect(q: RatCoord, r: Rectangle) -> bool {
    &&& !r.is_empty_spec()
    &&& q.den > 0
    &&& r.xmin() * q.den <= q.x_num <= r.xmax() * q.den
    &&& r.ymin() * q.den <= q.y_num <= r.ymax() * q.den
}

/// The point at parameter `tn / td` of the segment lies inside or on
/// the rectangle, written over plain integers.
pub open spec fn seg_param_in_rect(
    r: Rectangle,
    s: Coordinate,
    e: Coordinate,
    tn: int,
    td: int,
) -> bool {
    &&& 0 < td
    &&& 0 <= tn <= td
    &&& r.xmin() * td <= s.x * td + tn * (e.x - s.x) <= r.xmax() * td
    &&& r.ymin() * td <= s.y * td + tn * (e.y - s.y) <= r.ymax() * td
}

/// The closed segment shares at least one point with the rectangle.
pub open spec fn spec_seg_meets_rect(r: Rectangle, s: Coordinate, e: Coordinate) -> bool {
    &&& !r.is_empty_spec()
    &&& exists|tn: int, td: int| seg_param_in_rect(r, s, e, tn, td)
}

/// The two rational points are the ends of the maximal subsegment of
/// `s -> e` inside the rectangle: each lies at some parameter of the
/// segment, the first parameter does not exceed the second, and every
/// parameter whose point lies inside the rectangle falls between the
/// two.
pub open spec fn clipped_pair_on_segment(
    s: Coordinate,
    e: Coordinate,
    r: Rectangle,
    a: RatCoord,
    b: RatCoord,
) -> bool {
    exists|t0n: int, t1n: int|
        #![trigger spec_seg_point(s, e, t0n, a.den as int), spec_seg_point(s, e, t1n, b.den as int)]
        {
            &&& 0 <= t0n <= a.den
            &&& 0 <= t1n <= b.den
            &&& a == spec_seg_point(s, e, t0n, a.den as int)
            &&& b == spec_seg_point(s, e, t1n, b.den as int)
            &&& t0n * b.den <= t1n * a.den
            &&& forall|tn: int, td: int|
                #[trigger] seg_param_in_rect(r, s, e, tn, td) ==> t0n * td <= tn * a.den && tn
                    * b.den <= t1n * td
        }
}

/// One half-plane constraint `t * p <= q`, cross-multiplied at the
/// parameter `tn / td`.
spec fn param_ok(side: (i64, i64), tn: int, td: int) -> bool {
    side.0 * tn <= side.1 * td
}

/// The parameter satisfies every side constraint processed so far.
spec fn sides_feasible(sides: Seq<(i64, i64)>, upto: int, tn: int, td: int) -> bool {
    &&& 0 < td
    &&& 0 <= tn <= td
    &&& forall|k: int| 0 <= k < upto ==> #[trigger] param_ok(sides[k], tn, td)
}

/// The side's constraint is recorded at the window end that pins it:
/// an entering side (direction against it) at the lower end, an
/// exiting side at the upper end, a parallel side by its sign alone.
spec fn side_held(side: (i64, i64), n0: int, d0: int, n1: int, d1: int) -> bool {
    if (side.0 as int) < 0 {
        param_ok(side, n0, d0)
    } else if (side.0 as int) > 0 {
        param_ok(side, n1, d1)
    } else {
        side.1 >= 0
    }
}

/// A parameter along a segment as an exact fraction with a positive
/// denominator.
struct Param {
    num: i64,
    den: i64,
}

/// Raising the lower window end keeps every recorded side constraint.
proof fn lemma_held_after_lower(
    sides: Seq<(i64, i64)>,
    upto: int,
    oldn: int,
    oldd: int,
    n0: int,
    d0: int,
    n1: int,
    d1: int,
)
    requires
        0 < oldd,
        0 < d0,
        0 < d1,
        oldn * d0 <= n0 * oldd,
        forall|k: int| 0 <= k < upto ==> #[trigger] side_held(sides[k], oldn, oldd, n1, d1),
    ensures
        forall|k: int| 0 <= k < upto ==> #[trigger] side_held(sides[k], n0, d0, n1, d1),
{
    assert forall|k: int| 0 <= k < upto implies #[trigger] side_held(
        sides[k],
        n0,
        d0,
        n1,
        d1,
    ) by {
        assert(side_held(sides[k], oldn, oldd, n1, d1));
        if (sides[k].0 as int) < 0 {
            lemma_param_mono_up(sides[k].0 as int, sides[k].1 as int, oldn, oldd, n0, d0);
        }
    }
}

/// Lowering the upper window end keeps every recorded side constraint.
proof fn lemma_held_after_upper(
    sides: Seq<(i64, i64)>,
    upto: int,
    oldn: int,
    oldd: int,
    n0: int,
    d0: int,
    n1: int,
    d1: int,
)
    requires
        0 < oldd,
        0 < d0,
        0 < d1,
        n1 * oldd <= oldn * d1,
        forall|k: int| 0 <= k < upto ==> #[trigger] side_held(sides[k], n0, d0, oldn, oldd),
    ensures
        forall|k: int| 0 <= k < upto ==> #[trigger] side_held(sides[k], n0, d0, n1, d1),
{
    assert forall|k: int| 0 <= k < upto implies #[trigger] side_held(
        sides[k],
        n0,
        d0,
        n1,
        d1,
    ) by {
        assert(side_held(sides[k], n0, d0, oldn, oldd));
        if (sides[k].0 as int) > 0 {
            lemma_param_mono_down(sides[k].0 as int, sides[k].1 as int, oldn, oldd, n1, d1);
        }
    }
}

/// A recorded constraint holds at both window ends once the window is
/// ordered.
proof fn lemma_window_both_ends(
    sides: Seq<(i64, i64)>,
    upto: int,
    n0: int,
    d0: int,
    n1: int,
    d1: int,
)
    requires
        0 < d0,
        0 < d1,
        n0 * d1 <= n1 * d0,
        forall|k: int| 0 <= k < upto ==> #[trigger] side_held(sides[k], n0, d0, n1, d1),
    ensures
        forall|k: int| 0 <= k < upto ==> #[trigger] param_ok(sides[k], n0, d0),
        forall|k: int| 0 <= k < upto ==> #[trigger] param_ok(sides[k], n1, d1),
{
    assert forall|k: int| 0 <= k < upto implies #[trigger] param_ok(sides[k], n0, d0) by {
        assert(side_held(sides[k], n0, d0, n1, d1));
        if (sides[k].0 as int) > 0 {
            lemma_param_mono_down(sides[k].0 as int, sides[k].1 as int, n1, d1, n0, d0);
        } else if (sides[k].0 as int) == 0 {
            assert(param_ok(sides[k], n0, d0)) by (nonlinear_arith)
                requires
                    sides[k].0 as int == 0,
                    (sides[k].1 as int) >= 0,
                    0 < d0,
            {
            }
        }
    }
    assert forall|k: int| 0 <= k < upto implies #[trigger] param_ok(sides[k], n1, d1) by {
        assert(side_held(sides[k], n0, d0, n1, d1));
        if (sides[k].0 as int) < 0 {
            lemma_param_mono_up(sides[k].0 as int, sides[k].1 as int, n0, d0, n1, d1);
        } else if (sides[k].0 as int) == 0 {
            assert(param_ok(sides[k], n1, d1)) by (nonlinear_arith)
                requires
                    sides[k].0 as int == 0,
                    (sides[k].1 as int) >= 0,
                    0 < d1,
            {
            }
        }
    }
}

/// Point-in-rectangle at a parameter is exactly the conjunction of the
/// four cross-multiplied side constraints.
proof fn lemma_sides_iff_in_rect(
    r: Rectangle,
    s: Coordinate,
    e: Coordinate,
    sides: Seq<(i64, i64)>,
    tn: int,
    td: int,
)
    requires
        !r.is_empty_spec(),
        0 < td,
        0 <= tn <= td,
        sides.len() == 4,
        sides[0].0 as int == -(e.x - s.x),
        sides[0].1 as int == s.x - r.xmin(),
        sides[1].0 as int == e.x - s.x,
        sides[1].1 as int == r.xmax() - s.x,
        sides[2].0 as int == -(e.y - s.y),
        sides[2].1 as int == s.y - r.ymin(),
        sides[3].0 as int == e.y - s.y,
        sides[3].1 as int == r.ymax() - s.y,
    ensures
        seg_param_in_rect(r, s, e, tn, td) == (param_ok(sides[0], tn, td) && param_ok(
            sides[1],
            tn,
            td,
        ) && param_ok(sides[2], tn, td) && param_ok(sides[3], tn, td)),
{
    assert(param_ok(sides[0], tn, td) == (r.xmin() * td <= s.x * td + tn * (e.x - s.x)))
        by (nonlinear_arith)
        requires
            sides[0].0 as int == -(e.x - s.x),
            sides[0].1 as int == s.x - r.xmin(),
    {
    }
    assert(param_ok(sides[1], tn, td) == (s.x * td + tn * (e.x - s.x) <= r.xmax() * td))
        by (nonlinear_arith)
        requires
            sides[1].0 as int == e.x - s.x,
            sides[1].1 as int == r.xmax() - s.x,
    {
    }
    assert(param_ok(sides[2], tn, td) == (r.ymin() * td <= s.y * td + tn * (e.y - s.y)))
        by (nonlinear_arith)
        requires
            sides[2].0 as int == -(e.y - s.y),
            sides[2].1 as int == s.y - r.ymin(),
    {
    }
    assert(param_ok(sides[3], tn, td) == (s.y * td + tn * (e.y - s.y) <= r.ymax() * td))
        by (nonlinear_arith)
        requires
            sides[3].0 as int == e.y - s.y,
            sides[3].1 as int == r.ymax() - s.y,
    {
    }
}

/// An upward-closed constraint (entering side) survives raising the
/// parameter; a downward-closed one (exiting side) survives lowering
/// it.
proof fn lemma_param_mono_up(p: int, q: int, an: int, ad: int, bn: int, bd: int)
    requires
        p < 0,
        0 < ad,
        0 < bd,
        p * an <= q * ad,
        an * bd <= bn * ad,
    ensures
        p * bn <= q * bd,
{
    assert(p * bn * ad <= p * an * bd) by (nonlinear_arith)
        requires
            p < 0,
            an * bd <= bn * ad,
    {
    }
    assert(p * an * bd <= q * ad * bd) by (nonlinear_arith)
        requires
            0 < bd,
            p * an <= q * ad,
    {
    }
    assert(p * bn * ad <= q * bd * ad) by (nonlinear_arith)
        requires
            p * bn * ad <= p * an * bd,
            p * an * bd <= q * ad * bd,
    {
    }
    assert(p * bn <= q * bd) by (nonlinear_arith)
        requires
            0 < ad,
            p * bn * ad <= q * bd * ad,
    {
    }
}

proof fn lemma_param_mono_down(p: int, q: int, an: int, ad: int, bn: int, bd: int)
    requires
        p > 0,
        0 < ad,
        0 < bd,
        p * an <= q * ad,
        bn * ad <= an * bd,
    ensures
        p * bn <= q * bd,
{
    assert(p * bn * ad <= p * an * bd) by (nonlinear_arith)
        requires
            p > 0,
            bn * ad <= an * bd,
    {
    }
    assert(p * an * bd <= q * ad * bd) by (nonlinear_arith)
        requires
            0 < bd,
            p * an <= q * ad,
    {
    }
    assert(p * bn * ad <= q * bd * ad) by (nonlinear_arith)
        requires
            p * bn * ad <= p * an * bd,
            p * an * bd <= q * ad * bd,
    {
    }
    assert(p * bn <= q * bd) by (nonlinear_arith)
        requires
            0 < ad,
            p * bn * ad <= q * bd * ad,
    {
    }
}

impl Rectangle {
    /// Clip the segment from `start` to `end` against the rectangle
    /// with the Liang-Barsky half-plane walk, exactly.
    ///
    /// `Some` comes back precisely when the closed segment shares a
    /// point with the rectangle, and then the pair is the clipped
    /// subsegment: two points on the segment, inside or on the
    /// rectangle, ordered from `start` toward `end`.  The identities
    /// the clipper relies on are also part of the contract: when both
    /// endpoints are inside the result is the literal input, and an
    /// endpoint that is itself inside comes back unchanged, so
    /// equality tests against the input coordinates are meaningful.
    #[verifier::rlimit(100)]
    #[verifier::spinoff_prover]
    pub fn intersect_segment(&self, start: Coordinate, end: Coordinate) -> (r: Option<
        (RatCoord, RatCoord),
    >)
        requires
            self.wf(),
            !self.is_empty_spec(),
            self.in_range(),
            start.in_range(),
            end.in_range(),
        ensures
            (r is Some) == spec_seg_meets_rect(*self, start, end),
            self.spec_contains_pt(start) && self.spec_contains_pt(end) ==> r == Option::Some(
                (RatCoord::spec_lattice(start), RatCoord::spec_lattice(end)),
            ),
            r matches Some(pair) ==> pair.0.den > 0 && pair.1.den > 0 && rat_bounded(pair.0)
                && rat_bounded(pair.1),
            self.spec_contains_pt(start) ==> (r matches Some(pair) ==> pair.0
                == RatCoord::spec_lattice(start)),
            self.spec_contains_pt(end) ==> (r matches Some(pair) ==> pair.1
                == RatCoord::spec_lattice(end)),
            r matches Some(pair) ==> rat_in_rect(pair.0, *self) && rat_in_rect(pair.1, *self),
            r matches Some(pair) ==> clipped_pair_on_segment(start, end, *self, pair.0, pair.1),
    {
        let both = self.contains_pt(start) && self.contains_pt(end);
        if both {
            proof {
                assert(seg_param_in_rect(*self, start, end, 0, 1)) by (nonlinear_arith)
                    requires
                        !self.is_empty_spec(),
                        self.xmin() <= start.x as int <= self.xmax(),
                        self.ymin() <= start.y as int <= self.ymax(),
                {
                }
                let a = RatCoord::spec_lattice(start);
                let b = RatCoord::spec_lattice(end);
                assert(start.x as int * 1 + 0 * (end.x as int - start.x as int)
                    == start.x as int) by (nonlinear_arith);
                assert(start.y as int * 1 + 0 * (end.y as int - start.y as int)
                    == start.y as int) by (nonlinear_arith);
                assert(start.x as int * 1 + 1 * (end.x as int - start.x as int)
                    == end.x as int) by (nonlinear_arith);
                assert(start.y as int * 1 + 1 * (end.y as int - start.y as int)
                    == end.y as int) by (nonlinear_arith);
                assert(a == spec_seg_point(start, end, 0, 1));
                assert(b == spec_seg_point(start, end, 1, 1));
                assert(a == spec_seg_point(start, end, 0, a.den as int));
                assert(b == spec_seg_point(start, end, 1, b.den as int));
                assert(0 * b.den <= 1 * a.den) by (nonlinear_arith)
                    requires
                        a.den == 1 && b.den == 1,
                {
                }
                assert forall|tn: int, td: int|
                    #[trigger] seg_param_in_rect(*self, start, end, tn, td) implies 0 * td <= tn
                    * a.den && tn * b.den <= 1 * td by {
                    assert(0 * td <= tn * 1 && tn * 1 <= 1 * td) by (nonlinear_arith)
                        requires
                            0 <= tn <= td,
                    {
                    }
                }
                assert(clipped_pair_on_segment(start, end, *self, a, b));
                assert(self.xmin() * 1 <= start.x as int <= self.xmax() * 1)
                    by (nonlinear_arith)
                    requires
                        self.xmin() <= start.x as int <= self.xmax(),
                {
                }
                assert(self.ymin() * 1 <= start.y as int <= self.ymax() * 1)
                    by (nonlinear_arith)
                    requires
                        self.ymin() <= start.y as int <= self.ymax(),
                {
                }
                assert(self.xmin() * 1 <= end.x as int <= self.xmax() * 1) by (nonlinear_arith)
                    requires
                        self.xmin() <= end.x as int <= self.xmax(),
                {
                }
                assert(self.ymin() * 1 <= end.y as int <= self.ymax() * 1) by (nonlinear_arith)
                    requires
                        self.ymin() <= end.y as int <= self.ymax(),
                {
                }
                assert(rat_in_rect(a, *self));
                assert(rat_in_rect(b, *self));
            }
            return Some((RatCoord::lattice(start), RatCoord::lattice(end)));
        }
        if start.x == end.x && start.y == end.y {
            proof {
                if spec_seg_meets_rect(*self, start, end) {
                    let (tn, td) = choose|tn: int, td: int|
                        seg_param_in_rect(*self, start, end, tn, td);
                    assert(self.spec_contains_pt(start)) by (nonlinear_arith)
                        requires
                            seg_param_in_rect(*self, start, end, tn, td),
                            end.x == start.x,
                            end.y == start.y,
                            !self.is_empty_spec(),
                    {
                    }
                    assert(false);
                }
            }
            return None;
        }
        let x_delta = end.x - start.x;
        let y_delta = end.y - start.y;
        // running parameter window [t0, t1] as exact fractions
        let mut t0 = Param { num: 0, den: 1 };
        let mut t1 = Param { num: 1, den: 1 };
        let ghost s_in = self.spec_contains_pt(start);
        let ghost e_in = self.spec_contains_pt(end);
        // each side contributes p (direction against the side) and q
        // (slack of the start towards the side)
        let p1 = -x_delta;
        let q1 = start.x - self.x_min();
        let p2 = x_delta;
        let q2 = self.x_max() - start.x;
        let p3 = -y_delta;
        let q3 = start.y - self.y_min();
        let p4 = y_delta;
        let q4 = self.y_max() - start.y;
        let sides: [(i64, i64); 4] = [(p1, q1), (p2, q2), (p3, q3), (p4, q4)];
        let mut i: usize = 0;
        while i < 4
            invariant
                start.in_range(),
                end.in_range(),
                self.wf(),
                self.in_range(),
                !self.is_empty_spec(),
                s_in == self.spec_contains_pt(start),
                e_in == self.spec_contains_pt(end),
                x_delta as int == end.x - start.x,
                y_delta as int == end.y - start.y,
                sides@.len() == 4,
                sides@[0].0 as int == -(end.x - start.x),
                sides@[0].1 as int == start.x - self.xmin(),
                sides@[1].0 as int == end.x - start.x,
                sides@[1].1 as int == self.xmax() - start.x,
                sides@[2].0 as int == -(end.y - start.y),
                sides@[2].1 as int == start.y - self.ymin(),
                sides@[3].0 as int == end.y - start.y,
                sides@[3].1 as int == self.ymax() - start.y,
                0 <= t0.num <= 0x200_0000,
                0 < t0.den <= 0x200_0000,
                -0x200_0000 <= t1.num <= 0x200_0000,
                0 < t1.den <= 0x200_0000,
                t1.num <= t1.den,
                t0.num * t1.den <= t1.num * t0.den,
                s_in ==> t0.num == 0 && t0.den == 1,
                e_in ==> t1.num == 1 && t1.den == 1,
                !(s_in && e_in),
                forall|k: int|
                    0 <= k < i ==> #[trigger] side_held(
                        sides@[k],
                        t0.num as int,
                        t0.den as int,
                        t1.num as int,
                        t1.den as int,
                    ),
                forall|tn: int, td: int|
                    #[trigger] sides_feasible(sides@, i as int, tn, td) ==> t0.num * td <= tn
                        * t0.den,
                forall|tn: int, td: int|
                    #[trigger] sides_feasible(sides@, i as int, tn, td) ==> tn * t1.den <= t1.num
                        * td,
                i <= 4,
            decreases 4 - i,
        {
            let ghost gi = i as int;
            let (p, q) = sides[i];
            proof {
                if s_in {
                    assert(q >= 0);
                }
                if e_in {
                    assert(q >= p);
                }
            }
            if p == 0 {
                if q < 0 {
                    proof {
                        if spec_seg_meets_rect(*self, start, end) {
                            let (tn, td) = choose|tn: int, td: int|
                                seg_param_in_rect(*self, start, end, tn, td);
                            lemma_sides_iff_in_rect(*self, start, end, sides@, tn, td);
                            assert(param_ok(sides@[gi], tn, td));
                            assert(false) by (nonlinear_arith)
                                requires
                                    p as int == 0,
                                    q < 0,
                                    0 < td,
                                    (p as int) * tn <= (q as int) * td,
                            {
                            }
                        }
                    }
                    return None;
                }
                proof {
                    assert forall|tn: int, td: int|
                        #[trigger] sides_feasible(sides@, gi + 1, tn, td) implies t0.num * td
                        <= tn * t0.den && tn * t1.den <= t1.num * td by {
                        assert(sides_feasible(sides@, gi, tn, td));
                    }
                    assert(side_held(
                        sides@[gi],
                        t0.num as int,
                        t0.den as int,
                        t1.num as int,
                        t1.den as int,
                    ));
                }
            } else if p < 0 {
                // entering side: candidate lower bound q/p
                proof {
                    lemma_product_bound(q as int, t1.den as int);
                    lemma_product_bound(p as int, t1.num as int);
                    lemma_product_bound(q as int, t0.den as int);
                    lemma_product_bound(p as int, t0.num as int);
                }
                // q/p > t1 ?  with p < 0: q * t1.den < p * t1.num
                if q * t1.den < p * t1.num {
                    proof {
                        if spec_seg_meets_rect(*self, start, end) {
                            let (tn, td) = choose|tn: int, td: int|
                                seg_param_in_rect(*self, start, end, tn, td);
                            lemma_sides_iff_in_rect(*self, start, end, sides@, tn, td);
                            assert(sides_feasible(sides@, gi, tn, td));
                            assert(tn * t1.den <= t1.num * td);
                            assert(param_ok(sides@[gi], tn, td));
                            assert((p as int) * t1.num <= (q as int) * t1.den)
                                by (nonlinear_arith)
                                requires
                                    (p as int) < 0,
                                    0 < td,
                                    0 < t1.den,
                                    (p as int) * tn <= (q as int) * td,
                                    tn * t1.den <= t1.num * td,
                            {
                            }
                            assert(false);
                        }
                    }
                    return None;
                }
                if q * t0.den < p * t0.num {
                    proof {
                        if s_in {
                            // a contained start never tightens the
                            // lower bound
                            assert(q >= 0);
                            assert(q * t0.den >= 0) by (nonlinear_arith)
                                requires
                                    q >= 0,
                                    t0.den > 0,
                            {
                            }
                            assert(p * t0.num <= 0) by (nonlinear_arith)
                                requires
                                    p < 0,
                                    t0.num == 0,
                            {
                            }
                            assert(false);
                        }
                    }
                    let ghost old_t0 = t0;
                    t0 = Param { num: -q, den: -p };
                    proof {
                        // the bound is within [old_t0, t1]
                        assert(old_t0.num * (t0.den as int) <= (t0.num as int) * old_t0.den)
                            by (nonlinear_arith)
                            requires
                                (q as int) * old_t0.den < (p as int) * old_t0.num,
                                t0.num as int == -(q as int),
                                t0.den as int == -(p as int),
                        {
                        }
                        assert((t0.num as int) * t1.den <= t1.num * (t0.den as int))
                            by (nonlinear_arith)
                            requires
                                !((q as int) * t1.den < (p as int) * t1.num),
                                t0.num as int == -(q as int),
                                t0.den as int == -(p as int),
                        {
                        }
                        assert(t0.num >= 0) by (nonlinear_arith)
                            requires
                                (q as int) * old_t0.den < (p as int) * old_t0.num,
                                old_t0.den > 0,
                                old_t0.num >= 0,
                                p < 0,
                                t0.num as int == -(q as int),
                        {
                        }
                        lemma_held_after_lower(
                            sides@,
                            gi,
                            old_t0.num as int,
                            old_t0.den as int,
                            t0.num as int,
                            t0.den as int,
                            t1.num as int,
                            t1.den as int,
                        );
                        // the new side is pinned at the new lower end
                        assert(param_ok(sides@[gi], t0.num as int, t0.den as int))
                            by (nonlinear_arith)
                            requires
                                sides@[gi].0 as int == p as int,
                                sides@[gi].1 as int == q as int,
                                t0.num as int == -(q as int),
                                t0.den as int == -(p as int),
                        {
                        }
                        assert(side_held(
                            sides@[gi],
                            t0.num as int,
                            t0.den as int,
                            t1.num as int,
                            t1.den as int,
                        ));
                        // the window stays a lower bound for feasible parameters
                        assert forall|tn: int, td: int|
                            #[trigger] sides_feasible(sides@, gi + 1, tn, td) implies (t0.num
                            as int) * td <= tn * (t0.den as int) && tn * t1.den <= t1.num
                            * td by {
                            assert(sides_feasible(sides@, gi, tn, td));
                            assert(param_ok(sides@[gi], tn, td));
                            assert((t0.num as int) * td <= tn * (t0.den as int))
                                by (nonlinear_arith)
                                requires
                                    (p as int) * tn <= (q as int) * td,
                                    t0.num as int == -(q as int),
                                    t0.den as int == -(p as int),
                            {
                            }
                        }
                    }
                } else {
                    proof {
                        assert(param_ok(sides@[gi], t0.num as int, t0.den as int));
                        assert(side_held(
                            sides@[gi],
                            t0.num as int,
                            t0.den as int,
                            t1.num as int,
                            t1.den as int,
                        ));
                        assert forall|tn: int, td: int|
                            #[trigger] sides_feasible(sides@, gi + 1, tn, td) implies t0.num * td
                            <= tn * t0.den && tn * t1.den <= t1.num * td by {
                            assert(sides_feasible(sides@, gi, tn, td));
                        }
                    }
                }
            } else {
                // exiting side: candidate upper bound q/p
                proof {
                    lemma_product_bound(q as int, t0.den as int);
                    lemma_product_bound(p as int, t0.num as int);
                    lemma_product_bound(q as int, t1.den as int);
                    lemma_product_bound(p as int, t1.num as int);
                }
                if q * t0.den < p * t0.num {
                    proof {
                        if spec_seg_meets_rect(*self, start, end) {
                            let (tn, td) = choose|tn: int, td: int|
                                seg_param_in_rect(*self, start, end, tn, td);
                            lemma_sides_iff_in_rect(*self, start, end, sides@, tn, td);
                            assert(sides_feasible(sides@, gi, tn, td));
                            assert(t0.num * td <= tn * t0.den);
                            assert(param_ok(sides@[gi], tn, td));
                            assert((p as int) * t0.num <= (q as int) * t0.den)
                                by (nonlinear_arith)
                                requires
                                    (p as int) > 0,
                                    0 < td,
                                    0 < t0.den,
                                    (p as int) * tn <= (q as int) * td,
                                    (t0.num as int) * td <= tn * (t0.den as int),
                            {
                            }
                            assert(false);
                        }
                    }
                    return None;
                }
                if q * t1.den < p * t1.num {
                    proof {
                        if e_in {
                            // a contained end never tightens the upper
                            // bound
                            assert(q >= p);
                            assert(q * t1.den >= p * t1.num) by (nonlinear_arith)
                                requires
                                    q >= p,
                                    t1.den > 0,
                                    t1.num == t1.den,
                            {
                            }
                            assert(false);
                        }
                    }
                    let ghost old_t1 = t1;
                    t1 = Param { num: q, den: p };
                    proof {
                        assert((t1.num as int) * old_t1.den <= old_t1.num * (t1.den as int))
                            by (nonlinear_arith)
                            requires
                                (q as int) * old_t1.den < (p as int) * old_t1.num,
                                t1.num as int == q as int,
                                t1.den as int == p as int,
                        {
                        }
                        assert((t0.num as int) * (t1.den as int) <= (t1.num as int) * (
                        t0.den as int)) by (nonlinear_arith)
                            requires
                                !((q as int) * t0.den < (p as int) * t0.num),
                                t1.num as int == q as int,
                                t1.den as int == p as int,
                        {
                        }
                        assert(t1.num <= t1.den) by (nonlinear_arith)
                            requires
                                (q as int) * old_t1.den < (p as int) * old_t1.num,
                                old_t1.den > 0,
                                old_t1.num <= old_t1.den,
                                p > 0,
                                t1.num as int == q as int,
                                t1.den as int == p as int,
                        {
                        }
                        lemma_held_after_upper(
                            sides@,
                            gi,
                            old_t1.num as int,
                            old_t1.den as int,
                            t0.num as int,
                            t0.den as int,
                            t1.num as int,
                            t1.den as int,
                        );
                        // the new side is pinned at the new upper end
                        assert(param_ok(sides@[gi], t1.num as int, t1.den as int))
                            by (nonlinear_arith)
                            requires
                                sides@[gi].0 as int == p as int,
                                sides@[gi].1 as int == q as int,
                                t1.num as int == q as int,
                                t1.den as int == p as int,
                        {
                        }
                        assert(side_held(
                            sides@[gi],
                            t0.num as int,
                            t0.den as int,
                            t1.num as int,
                            t1.den as int,
                        ));
                        assert forall|tn: int, td: int|
                            #[trigger] sides_feasible(sides@, gi + 1, tn, td) implies t0.num * td
                            <= tn * t0.den && tn * (t1.den as int) <= (t1.num as int) * td by {
                            assert(sides_feasible(sides@, gi, tn, td));
                            assert(param_ok(sides@[gi], tn, td));
                            assert(tn * (t1.den as int) <= (t1.num as int) * td)
                                by (nonlinear_arith)
                                requires
                                    (p as int) * tn <= (q as int) * td,
                                    t1.num as int == q as int,
                                    t1.den as int == p as int,
                            {
                            }
                        }
                    }
                } else {
                    proof {
                        assert(param_ok(sides@[gi], t1.num as int, t1.den as int));
                        assert(side_held(
                            sides@[gi],
                            t0.num as int,
                            t0.den as int,
                            t1.num as int,
                            t1.den as int,
                        ));
                        assert forall|tn: int, td: int|
                            #[trigger] sides_feasible(sides@, gi + 1, tn, td) implies t0.num * td
                            <= tn * t0.den && tn * t1.den <= t1.num * td by {
                            assert(sides_feasible(sides@, gi, tn, td));
                        }
                    }
                }
            }
            i += 1;
        }
        proof {
            lemma_product_bound(t0.num as int, x_delta as int);
            lemma_product_bound(t0.num as int, y_delta as int);
            lemma_product_bound(t1.num as int, x_delta as int);
            lemma_product_bound(t1.num as int, y_delta as int);
            lemma_product_bound(start.x as int, t0.den as int);
            lemma_product_bound(start.y as int, t0.den as int);
            lemma_product_bound(start.x as int, t1.den as int);
            lemma_product_bound(start.y as int, t1.den as int);
        }
        let a = RatCoord {
            x_num: start.x as i128 * t0.den as i128 + t0.num as i128 * x_delta as i128,
            y_num: start.y as i128 * t0.den as i128 + t0.num as i128 * y_delta as i128,
            den: t0.den as i128,
        };
        let b = RatCoord {
            x_num: start.x as i128 * t1.den as i128 + t1.num as i128 * x_delta as i128,
            y_num: start.y as i128 * t1.den as i128 + t1.num as i128 * y_delta as i128,
            den: t1.den as i128,
        };
        proof {
            // both window ends satisfy all four sides, so both points
            // lie inside the rectangle and on the segment
            assert(t0.num <= t0.den) by (nonlinear_arith)
                requires
                    t0.num * t1.den <= t1.num * t0.den,
                    t1.num <= t1.den,
                    t0.den > 0,
                    t1.den > 0,
                    t0.num >= 0,
            {
            }
            assert(t1.num >= 0) by (nonlinear_arith)
                requires
                    t0.num * t1.den <= t1.num * t0.den,
                    t0.num >= 0,
                    t0.den > 0,
                    t1.den > 0,
            {
            }
            lemma_window_both_ends(
                sides@,
                4,
                t0.num as int,
                t0.den as int,
                t1.num as int,
                t1.den as int,
            );
            lemma_sides_iff_in_rect(*self, start, end, sides@, t0.num as int, t0.den as int);
            lemma_sides_iff_in_rect(*self, start, end, sides@, t1.num as int, t1.den as int);
            assert(seg_param_in_rect(*self, start, end, t0.num as int, t0.den as int));
            assert(seg_param_in_rect(*self, start, end, t1.num as int, t1.den as int));
            assert(a == spec_seg_point(start, end, t0.num as int, t0.den as int));
            assert(b == spec_seg_point(start, end, t1.num as int, t1.den as int));
            assert(rat_in_rect(a, *self));
            assert(rat_in_rect(b, *self));
            assert(a == spec_seg_point(start, end, t0.num as int, a.den as int));
            assert(b == spec_seg_point(start, end, t1.num as int, b.den as int));
            assert(0 <= t0.num as int <= a.den);
            assert(0 <= t1.num as int <= b.den);
            assert((t0.num as int) * b.den <= (t1.num as int) * a.den) by (nonlinear_arith)
                requires
                    t0.num * t1.den <= t1.num * t0.den,
                    a.den == t0.den as i128,
                    b.den == t1.den as i128,
            {
            }
            assert forall|tn: int, td: int|
                #[trigger] seg_param_in_rect(*self, start, end, tn, td) implies (t0.num as int)
                * td <= tn * a.den && tn * b.den <= (t1.num as int) * td by {
                lemma_sides_iff_in_rect(*self, start, end, sides@, tn, td);
                assert(sides_feasible(sides@, 4, tn, td));
            }
            assert(clipped_pair_on_segment(start, end, *self, a, b));
            if s_in {
                assert(a.x_num == start.x as i128 * 1 + 0 * (x_delta as i128));
                assert(a.x_num == start.x as i128);
                assert(a.y_num == start.y as i128 * 1 + 0 * (y_delta as i128));
                assert(a.y_num == start.y as i128);
                assert(a.den == 1);
                assert(a == RatCoord::spec_lattice(start));
            }
            if e_in {
                assert(b.x_num == start.x as i128 * 1 + 1 * (x_delta as i128));
                assert(b.x_num == end.x as i128);
                assert(b.y_num == start.y as i128 * 1 + 1 * (y_delta as i128));
                assert(b.y_num == end.y as i128);
                assert(b.den == 1);
                assert(b == RatCoord::spec_lattice(end));
            }
        }
        Some((a, b))
    }
}

} // verus!

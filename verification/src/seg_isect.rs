use vstd::prelude::*;

use crate::coordinate::{lemma_product_bound, Coordinate};

verus! {

/// An exact rational point: `(x_num / den, y_num / den)` with a
/// positive denominator.  Intersections of integer segments land on
/// such points.
#[derive(Clone, Copy, Debug, PartialEq, Eq, Structural)]
pub struct RatCoord {
    pub x_num: i128,
    pub y_num: i128,
    pub den: i128,
}

impl RatCoord {
    /// An integer coordinate as a rational point.
    pub open spec fn spec_lattice(c: Coordinate) -> RatCoord {
        RatCoord { x_num: c.x as i128, y_num: c.y as i128, den: 1 }
    }

    pub fn lattice(c: Coordinate) -> (r: RatCoord)
        ensures
            r == RatCoord::spec_lattice(c),
    {
        RatCoord { x_num: c.x as i128, y_num: c.y as i128, den: 1 }
    }

    /// True when this rational point is exactly the integer point `c`.
    pub open spec fn spec_is(self, c: Coordinate) -> bool {
        self.den > 0 && self.x_num == c.x as i128 * self.den && self.y_num == c.y as i128
            * self.den
    }
}

/// The exact intersection of two closed segments.
#[derive(Clone, Copy, Debug, PartialEq, Eq, Structural)]
pub enum SegmentIntersection {
    /// The segments share no point.
    Disjoint,
    /// The segments meet in the single rational point carried here.
    Touch(RatCoord),
    /// The segments are collinear and share the interval between the
    /// two carried coordinates (which coincide for a single shared
    /// point), listed in the first segment's direction.
    Overlap(Coordinate, Coordinate),
}

/// Direction vector cross product of the two segments: zero exactly
/// when they are parallel.
pub open spec fn spec_dir_cross(sa: Coordinate, ea: Coordinate, sb: Coordinate, eb: Coordinate) -> int {
    (ea.x - sa.x) * (eb.y - sb.y) - (ea.y - sa.y) * (eb.x - sb.x)
}

/// Cross product of the offset between starts with the first
/// direction: zero exactly when `sb` lies on the first line.
pub open spec fn spec_offset_cross(sa: Coordinate, ea: Coordinate, sb: Coordinate) -> int {
    (sb.x - sa.x) * (ea.y - sa.y) - (sb.y - sa.y) * (ea.x - sa.x)
}

/// Squared length of the first segment.
pub open spec fn spec_len2(sa: Coordinate, ea: Coordinate) -> int {
    (ea.x - sa.x) * (ea.x - sa.x) + (ea.y - sa.y) * (ea.y - sa.y)
}

/// Projection parameter of `p` onto the first segment, scaled by its
/// squared length.
pub open spec fn spec_proj(sa: Coordinate, ea: Coordinate, p: Coordinate) -> int {
    (p.x - sa.x) * (ea.x - sa.x) + (p.y - sa.y) * (ea.y - sa.y)
}

/// The exact intersection, as a mathematical case analysis on the two
/// cross products and, in the parallel case, on the projected
/// parameter ranges: equal or reversed segments share everything;
/// parallel but not collinear segments share nothing; collinear
/// segments share the clipped parameter interval; otherwise the two
/// lines meet in one point, shared exactly when it lies on both
/// parameter ranges.
pub open spec fn spec_segment_intersect(
    sa: Coordinate,
    ea: Coordinate,
    sb: Coordinate,
    eb: Coordinate,
) -> SegmentIntersection {
    if (sa == sb && ea == eb) || (sa == eb && ea == sb) {
        SegmentIntersection::Overlap(sa, ea)
    } else {
        let cross1 = spec_dir_cross(sa, ea, sb, eb);
        let cross2 = spec_offset_cross(sa, ea, sb);
        if cross1 == 0 && cross2 != 0 {
            SegmentIntersection::Disjoint
        } else if cross1 == 0 {
            // collinear
            let d2 = spec_len2(sa, ea);
            let t0 = spec_proj(sa, ea, sb);
            let t1 = spec_proj(sa, ea, eb);
            let pmin = if t0 <= t1 {
                sb
            } else {
                eb
            };
            let pmax = if t0 <= t1 {
                eb
            } else {
                sb
            };
            let tmin = if t0 <= t1 {
                t0
            } else {
                t1
            };
            let tmax = if t0 <= t1 {
                t1
            } else {
                t0
            };
            if tmin > d2 || tmax < 0 {
                SegmentIntersection::Disjoint
            } else {
                let start = if tmin >= 0 {
                    pmin
                } else {
                    sa
                };
                let end = if tmax <= d2 {
                    pmax
                } else {
                    ea
                };
                SegmentIntersection::Overlap(start, end)
            }
        } else {
            let ta = (sb.x - sa.x) * (eb.y - sb.y) - (sb.y - sa.y) * (eb.x - sb.x);
            let tb = cross2;
            let hit = if cross1 > 0 {
                0 <= ta <= cross1 && 0 <= tb <= cross1
            } else {
                cross1 <= ta <= 0 && cross1 <= tb <= 0
            };
            if hit {
                let den = if cross1 > 0 {
                    cross1
                } else {
                    -cross1
                };
                let tan = if cross1 > 0 {
                    ta
                } else {
                    -ta
                };
                SegmentIntersection::Touch(
                    RatCoord {
                        x_num: (sa.x * den + tan * (ea.x - sa.x)) as i128,
                        y_num: (sa.y * den + tan * (ea.y - sa.y)) as i128,
                        den: den as i128,
                    },
                )
            } else {
                SegmentIntersection::Disjoint
            }
        }
    }
}

/// Compute the exact intersection of the closed segments `sa -> ea`
/// and `sb -> eb`.  The first segment must not be degenerate.
pub fn segment_intersect(
    sa: Coordinate,
    ea: Coordinate,
    sb: Coordinate,
    eb: Coordinate,
) -> (r: SegmentIntersection)
    requires
        sa.in_range(),
        ea.in_range(),
        sb.in_range(),
        eb.in_range(),
    ensures
        r == spec_segment_intersect(sa, ea, sb, eb),
{
    if (sa == sb && ea == eb) || (sa == eb && ea == sb) {
        return SegmentIntersection::Overlap(sa, ea);
    }
    proof {
        lemma_product_bound(ea.x - sa.x, eb.y - sb.y);
        lemma_product_bound(ea.y - sa.y, eb.x - sb.x);
        lemma_product_bound(sb.x - sa.x, ea.y - sa.y);
        lemma_product_bound(sb.y - sa.y, ea.x - sa.x);
        lemma_product_bound(ea.x - sa.x, ea.x - sa.x);
        lemma_product_bound(ea.y - sa.y, ea.y - sa.y);
        lemma_product_bound(sb.x - sa.x, ea.x - sa.x);
        lemma_product_bound(sb.y - sa.y, ea.y - sa.y);
        lemma_product_bound(eb.x - sa.x, ea.x - sa.x);
        lemma_product_bound(eb.y - sa.y, ea.y - sa.y);
        lemma_product_bound(sb.x - sa.x, eb.y - sb.y);
        lemma_product_bound(sb.y - sa.y, eb.x - sb.x);
    }
    let cross1 = (ea.x - sa.x) * (eb.y - sb.y) - (ea.y - sa.y) * (eb.x - sb.x);
    let cross2 = (sb.x - sa.x) * (ea.y - sa.y) - (sb.y - sa.y) * (ea.x - sa.x);
    if cross1 == 0 && cross2 != 0 {
        return SegmentIntersection::Disjoint;
    }
    if cross1 == 0 {
        let d2 = (ea.x - sa.x) * (ea.x - sa.x) + (ea.y - sa.y) * (ea.y - sa.y);
        let t0 = (sb.x - sa.x) * (ea.x - sa.x) + (sb.y - sa.y) * (ea.y - sa.y);
        let t1 = (eb.x - sa.x) * (ea.x - sa.x) + (eb.y - sa.y) * (ea.y - sa.y);
        let (pmin, tmin) = if t0 <= t1 {
            (sb, t0)
        } else {
            (eb, t1)
        };
        let (pmax, tmax) = if t0 <= t1 {
            (eb, t1)
        } else {
            (sb, t0)
        };
        if tmin > d2 || tmax < 0 {
            return SegmentIntersection::Disjoint;
        }
        let start = if tmin >= 0 {
            pmin
        } else {
            sa
        };
        let end = if tmax <= d2 {
            pmax
        } else {
            ea
        };
        return SegmentIntersection::Overlap(start, end);
    }
    let ta = (sb.x - sa.x) * (eb.y - sb.y) - (sb.y - sa.y) * (eb.x - sb.x);
    let tb = cross2;
    let hit = if cross1 > 0 {
        0 <= ta && ta <= cross1 && 0 <= tb && tb <= cross1
    } else {
        cross1 <= ta && ta <= 0 && cross1 <= tb && tb <= 0
    };
    if hit {
        let den = if cross1 > 0 {
            cross1
        } else {
            -cross1
        };
        let tan = if cross1 > 0 {
            ta
        } else {
            -ta
        };
        proof {
            lemma_wide_product_bound(sa.x as int, den as int);
            lemma_wide_product_bound(sa.y as int, den as int);
            lemma_wide_product_bound(tan as int, (ea.x - sa.x) as int);
            lemma_wide_product_bound(tan as int, (ea.y - sa.y) as int);
        }
        let x_num = sa.x as i128 * den as i128 + tan as i128 * (ea.x - sa.x) as i128;
        let y_num = sa.y as i128 * den as i128 + tan as i128 * (ea.y - sa.y) as i128;
        SegmentIntersection::Touch(RatCoord { x_num, y_num, den: den as i128 })
    } else {
        SegmentIntersection::Disjoint
    }
}

/// Bound on products that mix a cross-product value with a coordinate,
/// in 128-bit arithmetic.
pub proof fn lemma_wide_product_bound(a: int, b: int)
    by (nonlinear_arith)
    requires
        -0x40_0000_0000_0000 <= a <= 0x40_0000_0000_0000,
        -0x40_0000_0000_0000 <= b <= 0x40_0000_0000_0000,
    ensures
        -0x1000_0000_0000_0000_0000_0000_0000 <= a * b <= 0x1000_0000_0000_0000_0000_0000_0000,
{
}

/// Numerators and denominator small enough to cross-multiply in
/// 128-bit arithmetic.  Every `Touch` result satisfies these bounds.
pub open spec fn rat_bounded(q: RatCoord) -> bool {
    &&& 0 < q.den <= 0x2_0000_0000_0000
    &&& -0x400_0000_0000_0000_0000 <= q.x_num <= 0x400_0000_0000_0000_0000
    &&& -0x400_0000_0000_0000_0000 <= q.y_num <= 0x400_0000_0000_0000_0000
}

/// Exact equality of two rational points by cross-multiplication.
pub fn rat_eq(a: &RatCoord, b: &RatCoord) -> (r: bool)
    requires
        rat_bounded(*a),
        rat_bounded(*b),
    ensures
        r == (a.x_num * b.den == b.x_num * a.den && a.y_num * b.den == b.y_num * a.den),
{
    proof {
        lemma_rat_products(a.x_num as int, b.den as int);
        lemma_rat_products(b.x_num as int, a.den as int);
        lemma_rat_products(a.y_num as int, b.den as int);
        lemma_rat_products(b.y_num as int, a.den as int);
    }
    a.x_num * b.den == b.x_num * a.den && a.y_num * b.den == b.y_num * a.den
}

/// Cross-multiplication of bounded rationals stays within 128 bits.
proof fn lemma_rat_products(a: int, b: int)
    by (nonlinear_arith)
    requires
        -0x400_0000_0000_0000_0000 <= a <= 0x400_0000_0000_0000_0000,
        -0x2_0000_0000_0000 <= b <= 0x2_0000_0000_0000,
    ensures
        -0x4000_0000_0000_0000_0000_0000_0000_0000 <= a * b
            <= 0x4000_0000_0000_0000_0000_0000_0000_0000,
{
}

/// A `Touch` intersection point carries bounded numerators and a
/// bounded positive denominator.
pub proof fn lemma_touch_bounds(sa: Coordinate, ea: Coordinate, sb: Coordinate, eb: Coordinate)
    requires
        sa.in_range(),
        ea.in_range(),
        sb.in_range(),
        eb.in_range(),
    ensures
        spec_segment_intersect(sa, ea, sb, eb) matches SegmentIntersection::Touch(q)
            ==> rat_bounded(q),
{
    if spec_segment_intersect(sa, ea, sb, eb) matches SegmentIntersection::Touch(q) {
        lemma_product_bound_tight(ea.x - sa.x, eb.y - sb.y);
        lemma_product_bound_tight(ea.y - sa.y, eb.x - sb.x);
        lemma_product_bound_tight(sb.x - sa.x, eb.y - sb.y);
        lemma_product_bound_tight(sb.y - sa.y, eb.x - sb.x);
        let cross1 = spec_dir_cross(sa, ea, sb, eb);
        let den = if cross1 > 0 {
            cross1
        } else {
            -cross1
        };
        let ta0 = (sb.x - sa.x) * (eb.y - sb.y) - (sb.y - sa.y) * (eb.x - sb.x);
        let tan = if cross1 > 0 {
            ta0
        } else {
            -ta0
        };
        assert(0 <= tan <= den);
        assert(-0x400_0000_0000_0000_0000 <= sa.x * den + tan * (ea.x - sa.x)
            <= 0x400_0000_0000_0000_0000) by (nonlinear_arith)
            requires
                0 <= tan <= den,
                0 < den <= 0x2_0000_0000_0000,
                -0x80_0000 <= sa.x <= 0x80_0000,
                -0x100_0000 <= ea.x - sa.x <= 0x100_0000,
        {
        }
        assert(-0x400_0000_0000_0000_0000 <= sa.y * den + tan * (ea.y - sa.y)
            <= 0x400_0000_0000_0000_0000) by (nonlinear_arith)
            requires
                0 <= tan <= den,
                0 < den <= 0x2_0000_0000_0000,
                -0x80_0000 <= sa.y <= 0x80_0000,
                -0x100_0000 <= ea.y - sa.y <= 0x100_0000,
        {
        }
    }
}

/// Bound on a product of two coordinate differences.
pub proof fn lemma_product_bound_tight(a: int, b: int)
    by (nonlinear_arith)
    requires
        -0x100_0000 <= a <= 0x100_0000,
        -0x100_0000 <= b <= 0x100_0000,
    ensures
        -0x1_0000_0000_0000 <= a * b <= 0x1_0000_0000_0000,
{
}

} // verus!

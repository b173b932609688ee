use vstd::prelude::*;

use crate::coordinate::Coordinate;
use crate::layout::MAX_CAPACITY;
use crate::path::SegmentPath;
use crate::rectangle::Rectangle;
use crate::seg_isect::{
    segment_intersect, spec_segment_intersect, RatCoord, SegmentIntersection,
};

verus! {

/// The structured validation failures, each carrying its witness.
#[derive(Clone, Copy, Debug, PartialEq, Eq, Structural)]
pub enum ValidationError {
    /// A path of exactly one coordinate.
    SinglePathCoordinate,
    /// Two equal adjacent coordinates.
    DegenerateSegment { index: usize, position: Coordinate },
    /// Two segments sharing a collinear interval.
    OverlappingSegments { first_index: usize, second_index: usize, start: Coordinate, end: Coordinate },
    /// Two segments crossing where they may not.
    SelfIntersection { first_index: usize, second_index: usize, position: RatCoord },
    /// A ring with fewer than four coordinates.
    TooFewCoordinates,
    /// A ring whose first and last coordinates differ.
    NotClosed,
    /// A hole that is not properly inside its shell, or inside another
    /// hole.
    HoleNotValid,
    /// Two rings meeting in more than one point.
    MultipleIntersections,
    /// Ring touches that close a cycle and split the interior.
    InteriorDisconnected,
}

/// A shared point of two segments that a simple path allows: the
/// shared endpoint of consecutive segments, or the shared closing
/// endpoint of the first and last segment.
pub open spec fn allowed_shared_point(cs: Seq<Coordinate>, i: int, j: int, q: RatCoord) -> bool {
    ||| (j == i + 1 && q.spec_is(cs[j]))
    ||| (i == 0 && j == cs.len() - 2 && q.spec_is(cs[0]) && q.spec_is(cs[cs.len() - 1]))
}

/// The pair `(i, j)` of segments is admissible in a simple path: their
/// exact intersection is empty, or a single point that both may share.
pub open spec fn admissible_pair(cs: Seq<Coordinate>, i: int, j: int) -> bool {
    match spec_segment_intersect(cs[i], cs[i + 1], cs[j], cs[j + 1]) {
        SegmentIntersection::Disjoint => true,
        SegmentIntersection::Overlap(s, e) => s == e && allowed_shared_point(
            cs,
            i,
            j,
            RatCoord::spec_lattice(s),
        ),
        SegmentIntersection::Touch(q) => allowed_shared_point(cs, i, j, q),
    }
}

/// The bounding boxes of segments `i` and `j` overlap.
pub open spec fn boxes_intersect(cs: Seq<Coordinate>, i: int, j: int) -> bool {
    Rectangle::spec_new(cs[i], cs[i + 1]).spec_intersects(Rectangle::spec_new(cs[j], cs[j + 1]))
}

/// A path is simple as far as the candidate pairs go: no single
/// coordinate, no degenerate segment, and every pair of segments with
/// overlapping boxes meets only where a simple path allows.
pub open spec fn simple_path(cs: Seq<Coordinate>) -> bool {
    &&& cs.len() != 1
    &&& forall|i: int| 0 <= i < cs.len() - 1 ==> (#[trigger] cs[i]) != cs[i + 1]
    &&& forall|i: int, j: int|
        0 <= i < j < cs.len() - 1 && boxes_intersect(cs, i, j) ==> #[trigger] admissible_pair(
            cs,
            i,
            j,
        )
}

/// A `Touch` result always carries a positive, bounded denominator.
proof fn lemma_touch_shape(sa: Coordinate, ea: Coordinate, sb: Coordinate, eb: Coordinate)
    requires
        sa.in_range(),
        ea.in_range(),
        sb.in_range(),
        eb.in_range(),
    ensures
        spec_segment_intersect(sa, ea, sb, eb) matches SegmentIntersection::Touch(q) ==> 0
            < q.den <= 0x40_0000_0000_0000,
{
    if spec_segment_intersect(sa, ea, sb, eb) matches SegmentIntersection::Touch(q) {
        crate::coordinate::lemma_product_bound(ea.x - sa.x, eb.y - sb.y);
        crate::coordinate::lemma_product_bound(ea.y - sa.y, eb.x - sb.x);
    }
}

/// Check one candidate segment pair, reporting the first kind of
/// forbidden contact found.
pub fn check_intersection(index: usize, other_index: usize, coords: &Vec<Coordinate>) -> (r:
    Result<(), ValidationError>)
    requires
        index != other_index,
        (index as int) < coords@.len() - 1,
        (other_index as int) < coords@.len() - 1,
        forall|k: int| 0 <= k < coords@.len() ==> (#[trigger] coords@[k]).in_range(),
    ensures
        ({
            let fi = if index <= other_index {
                index as int
            } else {
                other_index as int
            };
            let si = if index <= other_index {
                other_index as int
            } else {
                index as int
            };
            &&& (r is Ok) == admissible_pair(coords@, fi, si)
            &&& (r matches Err(e) ==> match e {
                ValidationError::OverlappingSegments { first_index, second_index, start, end } => {
                    &&& first_index == fi && second_index == si
                    &&& spec_segment_intersect(
                        coords@[fi],
                        coords@[fi + 1],
                        coords@[si],
                        coords@[si + 1],
                    ) == SegmentIntersection::Overlap(start, end)
                    &&& start != end
                },
                ValidationError::SelfIntersection { first_index, second_index, position } => {
                    &&& first_index == fi && second_index == si
                    &&& !admissible_pair(coords@, fi, si)
                    &&& match spec_segment_intersect(
                        coords@[fi],
                        coords@[fi + 1],
                        coords@[si],
                        coords@[si + 1],
                    ) {
                        SegmentIntersection::Touch(q) => position == q,
                        SegmentIntersection::Overlap(s, e) => s == e && position
                            == RatCoord::spec_lattice(s),
                        SegmentIntersection::Disjoint => false,
                    }
                },
                _ => false,
            })
        }),
{
    let (fi, si) = if index <= other_index {
        (index, other_index)
    } else {
        (other_index, index)
    };
    let n_coords = coords.len();
    proof {
        assert(fi as int + 1 < coords@.len());
        assert(si as int + 1 < coords@.len());
        assert(coords@.len() == n_coords as int);
    }
    let sa = coords[fi];
    let ea = coords[fi + 1];
    let sb = coords[si];
    let eb = coords[si + 1];
    proof {
        lemma_touch_shape(sa, ea, sb, eb);
    }
    let isect = segment_intersect(sa, ea, sb, eb);
    match isect {
        SegmentIntersection::Disjoint => Ok(()),
        SegmentIntersection::Overlap(s, e) => {
            if s != e {
                Err(
                    ValidationError::OverlappingSegments {
                        first_index: fi,
                        second_index: si,
                        start: s,
                        end: e,
                    },
                )
            } else {
                let q = RatCoord::lattice(s);
                if check_allowed(coords, fi, si, &q) {
                    Ok(())
                } else {
                    Err(
                        ValidationError::SelfIntersection {
                            first_index: fi,
                            second_index: si,
                            position: q,
                        },
                    )
                }
            }
        },
        SegmentIntersection::Touch(q) => {
            if check_allowed(coords, fi, si, &q) {
                Ok(())
            } else {
                Err(
                    ValidationError::SelfIntersection {
                        first_index: fi,
                        second_index: si,
                        position: q,
                    },
                )
            }
        },
    }
}

/// Decide whether a shared point is one a simple path allows.
fn check_allowed(coords: &Vec<Coordinate>, fi: usize, si: usize, q: &RatCoord) -> (r: bool)
    requires
        (fi as int) < coords@.len() - 1,
        (si as int) < coords@.len() - 1,
        fi < si,
        0 < q.den <= 0x40_0000_0000_0000,
        forall|k: int| 0 <= k < coords@.len() ==> (#[trigger] coords@[k]).in_range(),
    ensures
        r == allowed_shared_point(coords@, fi as int, si as int, *q),
{
    if si == fi + 1 {
        if rat_is(q, coords[si]) {
            return true;
        }
    }
    if fi == 0 && si == coords.len() - 2 {
        if rat_is(q, coords[0]) && rat_is(q, coords[coords.len() - 1]) {
            return true;
        }
    }
    false
}

/// Decide whether a rational point is exactly the integer point `c`.
fn rat_is(q: &RatCoord, c: Coordinate) -> (r: bool)
    requires
        0 < q.den <= 0x40_0000_0000_0000,
        c.in_range(),
    ensures
        r == q.spec_is(c),
{
    proof {
        crate::seg_isect::lemma_wide_product_bound(c.x as int, q.den as int);
        crate::seg_isect::lemma_wide_product_bound(c.y as int, q.den as int);
    }
    q.x_num == c.x as i128 * q.den && q.y_num == c.y as i128 * q.den
}

impl SegmentPath {
    /// Verify that the path is simple: every pair of segments whose
    /// boxes overlap meets at most in a shared endpoint that a simple
    /// path allows.  Reports the first defect found, with its witness.
    pub fn validate(&self) -> (r: Result<(), ValidationError>)
        requires
            self.wf(),
        ensures
            (r is Ok) == simple_path(self.coords_spec()),
            r matches Err(e) ==> match e {
                ValidationError::SinglePathCoordinate => self.coords_spec().len() == 1,
                ValidationError::DegenerateSegment { index, position } => {
                    &&& (index as int) < self.coords_spec().len() - 1
                    &&& self.coords_spec()[index as int] == self.coords_spec()[index as int + 1]
                    &&& position == self.coords_spec()[index as int]
                    &&& forall|m: int|
                        0 <= m < index as int ==> (#[trigger] self.coords_spec()[m])
                            != self.coords_spec()[m + 1]
                },
                ValidationError::OverlappingSegments { first_index, second_index, start, end } => {
                    &&& (first_index as int) < (second_index as int) < self.coords_spec().len() - 1
                    &&& !admissible_pair(self.coords_spec(), first_index as int, second_index as int)
                    &&& spec_segment_intersect(
                        self.coords_spec()[first_index as int],
                        self.coords_spec()[first_index as int + 1],
                        self.coords_spec()[second_index as int],
                        self.coords_spec()[second_index as int + 1],
                    ) == SegmentIntersection::Overlap(start, end)
                    &&& start != end
                },
                ValidationError::SelfIntersection { first_index, second_index, position } => {
                    &&& (first_index as int) < (second_index as int) < self.coords_spec().len() - 1
                    &&& !admissible_pair(self.coords_spec(), first_index as int, second_index as int)
                    &&& match spec_segment_intersect(
                        self.coords_spec()[first_index as int],
                        self.coords_spec()[first_index as int + 1],
                        self.coords_spec()[second_index as int],
                        self.coords_spec()[second_index as int + 1],
                    ) {
                        SegmentIntersection::Touch(q) => position == q,
                        SegmentIntersection::Overlap(s, e) => s == e && position
                            == RatCoord::spec_lattice(s),
                        SegmentIntersection::Disjoint => false,
                    }
                },
                _ => false,
            },
    {
        let ghost cs = self.coords_spec();
        let coords = self.coords();
        let n_coords = coords.len();
        if n_coords == 1 {
            return Err(ValidationError::SinglePathCoordinate);
        }
        if n_coords == 0 {
            return Ok(());
        }
        let n = n_coords - 1;
        let mut i: usize = 0;
        while i < n
            invariant
                cs == self.coords_spec(),
                coords@ == cs,
                n == cs.len() - 1,
                cs.len() >= 2,
                i <= n,
                forall|k: int| 0 <= k < i ==> (#[trigger] cs[k]) != cs[k + 1],
            decreases n - i,
        {
            if coords[i].x == coords[i + 1].x && coords[i].y == coords[i + 1].y {
                proof {
                    assert(cs[i as int] == cs[i as int + 1]);
                }
                return Err(
                    ValidationError::DegenerateSegment { index: i, position: coords[i] },
                );
            }
            i += 1;
        }
        let pairs = self.rtree().query_self_intersections();
        let ghost t = self.rtree_spec();
        let mut k: usize = 0;
        while k < pairs.len()
            invariant
                cs == self.coords_spec(),
                coords@ == cs,
                self.wf(),
                t == self.rtree_spec(),
                n == cs.len() - 1,
                cs.len() >= 2,
                t.size() == n,
                k <= pairs@.len(),
                forall|m: int|
                    0 <= m < pairs@.len() ==> (#[trigger] pairs@[m].0 as int) < pairs@[m].1 as int
                        && (pairs@[m].1 as int) < t.size() && t.leaf_rect(
                        pairs@[m].0 as int,
                    ).spec_intersects(t.leaf_rect(pairs@[m].1 as int)),
                forall|i2: int, j2: int|
                    0 <= i2 < j2 < t.size() && (#[trigger] t.leaf_rect(i2)).spec_intersects(
                        #[trigger] t.leaf_rect(j2),
                    ) ==> pairs@.contains((i2 as usize, j2 as usize)),
                forall|m: int|
                    0 <= m < k ==> #[trigger] admissible_pair(
                        cs,
                        pairs@[m].0 as int,
                        pairs@[m].1 as int,
                    ),
            decreases pairs@.len() - k,
        {
            let (a, b) = pairs[k];
            let res = check_intersection(a, b, coords);
            match res {
                Result::Ok(_) => {},
                Result::Err(e) => {
                    proof {
                        assert(t.leaf_rect(a as int) == Rectangle::spec_new(
                            cs[a as int],
                            cs[a as int + 1],
                        ));
                        assert(t.leaf_rect(b as int) == Rectangle::spec_new(
                            cs[b as int],
                            cs[b as int + 1],
                        ));
                        assert(boxes_intersect(cs, a as int, b as int));
                        assert(!admissible_pair(cs, a as int, b as int));
                        assert(!simple_path(cs));
                    }
                    return Err(e);
                },
            }
            k += 1;
        }
        proof {
            assert forall|i2: int, j2: int|
                0 <= i2 < j2 < cs.len() - 1 && boxes_intersect(cs, i2, j2)
                implies #[trigger] admissible_pair(cs, i2, j2) by {
                assert(t.leaf_rect(i2) == Rectangle::spec_new(cs[i2], cs[i2 + 1]));
                assert(t.leaf_rect(j2) == Rectangle::spec_new(cs[j2], cs[j2 + 1]));
                assert(pairs@.contains((i2 as usize, j2 as usize)));
                let m = choose|m: int|
                    0 <= m < pairs@.len() && pairs@[m] == (i2 as usize, j2 as usize);
                assert(admissible_pair(cs, pairs@[m].0 as int, pairs@[m].1 as int));
            }
        }
        Ok(())
    }

    /// Build a path and verify its simplicity in one step.
    pub fn new_validated(coords: Vec<Coordinate>) -> (r: Result<SegmentPath, ValidationError>)
        requires
            coords@.len() <= MAX_CAPACITY,
            forall|i: int| 0 <= i < coords@.len() ==> (#[trigger] coords@[i]).in_range(),
        ensures
            (r is Ok) == simple_path(coords@),
            r matches Ok(p) ==> p.wf() && p.coords_spec() == coords@,
            r matches Err(e) ==> match e {
                ValidationError::SinglePathCoordinate => coords@.len() == 1,
                ValidationError::DegenerateSegment { index, position } => {
                    &&& (index as int) < coords@.len() - 1
                    &&& coords@[index as int] == coords@[index as int + 1]
                    &&& position == coords@[index as int]
                    &&& forall|m: int|
                        0 <= m < index as int ==> (#[trigger] coords@[m]) != coords@[m + 1]
                },
                ValidationError::OverlappingSegments { first_index, second_index, start, end } => {
                    &&& (first_index as int) < (second_index as int) < coords@.len() - 1
                    &&& !admissible_pair(coords@, first_index as int, second_index as int)
                    &&& spec_segment_intersect(
                        coords@[first_index as int],
                        coords@[first_index as int + 1],
                        coords@[second_index as int],
                        coords@[second_index as int + 1],
                    ) == SegmentIntersection::Overlap(start, end)
                    &&& start != end
                },
                ValidationError::SelfIntersection { first_index, second_index, position } => {
                    &&& (first_index as int) < (second_index as int) < coords@.len() - 1
                    &&& !admissible_pair(coords@, first_index as int, second_index as int)
                    &&& match spec_segment_intersect(
                        coords@[first_index as int],
                        coords@[first_index as int + 1],
                        coords@[second_index as int],
                        coords@[second_index as int + 1],
                    ) {
                        SegmentIntersection::Touch(q) => position == q,
                        SegmentIntersection::Overlap(s, e) => s == e && position
                            == RatCoord::spec_lattice(s),
                        SegmentIntersection::Disjoint => false,
                    }
                },
                _ => false,
            },
    {
        let path = SegmentPath::new(coords);
        let res = path.validate();
        match res {
            Result::Ok(_) => Ok(path),
            Result::Err(e) => Err(e),
        }
    }

    /// A ring must have at least four coordinates and close on itself.
    pub fn validate_ring(&self) -> (r: Result<(), ValidationError>)
        ensures
            self.coords_spec().len() < 4 ==> r == Result::<(), ValidationError>::Err(
                ValidationError::TooFewCoordinates,
            ),
            self.coords_spec().len() >= 4 && self.coords_spec()[0] != self.coords_spec()[
                self.coords_spec().len() - 1
            ] ==> r == Result::<(), ValidationError>::Err(ValidationError::NotClosed),
            (r is Ok) == (self.coords_spec().len() >= 4 && self.coords_spec()[0]
                == self.coords_spec()[self.coords_spec().len() - 1]),
    {
        let coords = self.coords();
        if coords.len() < 4 {
            return Err(ValidationError::TooFewCoordinates);
        }
        let first = coords[0];
        let last = coords[coords.len() - 1];
        if first.x != last.x || first.y != last.y {
            return Err(ValidationError::NotClosed);
        }
        Ok(())
    }

    /// True when the path can serve as a ring.
    pub fn is_ring(&self) -> (r: bool)
        ensures
            r == (self.coords_spec().len() >= 4 && self.coords_spec()[0] == self.coords_spec()[
                self.coords_spec().len() - 1
            ]),
    {
        let res = self.validate_ring();
        match res {
            Result::Ok(_) => true,
            Result::Err(_) => false,
        }
    }
}

} // verus!

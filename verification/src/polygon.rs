use vstd::prelude::*;

use crate::coordinate::Coordinate;
use crate::path::{ContainRelation, SegmentPath};
use crate::rtree::span_union;
use crate::seg_isect::{
    lemma_touch_bounds, rat_bounded, rat_eq, segment_intersect, spec_segment_intersect, RatCoord,
    SegmentIntersection,
};
use crate::validate::ValidationError;
use crate::winding::{spec_on_segment, winding_sum};
use crate::graph::has_cycle;

verus! {

/// The classification of one point against one closed ring, as the
/// winding rules of `point_in_ring` define it.
pub open spec fn ring_relation(cs: Seq<Coordinate>, p: Coordinate) -> ContainRelation {
    if exists|i: int|
        0 <= i < cs.len() - 1 && #[trigger] spec_on_segment(p, cs[i], cs[i + 1]) {
        ContainRelation::Boundary
    } else if winding_sum(p, cs, 0, cs.len() - 1) != 0 {
        ContainRelation::Interior
    } else {
        ContainRelation::Exterior
    }
}

/// One direction of the parity phrasing of ring containment: a point
/// on no segment with an odd winding number lies strictly inside.
/// The converse needs the winding number of a simple ring to stay
/// within one in magnitude, which is not proved here.
pub proof fn lemma_odd_winding_interior(cs: Seq<Coordinate>, p: Coordinate)
    requires
        !(exists|i: int|
            0 <= i < cs.len() - 1 && #[trigger] spec_on_segment(p, cs[i], cs[i + 1])),
        winding_sum(p, cs, 0, cs.len() - 1) % 2 != 0,
    ensures
        ring_relation(cs, p) == ContainRelation::Interior,
{
}

/// Scan the holes from index `i`: the first hole that strictly
/// contains the point makes it exterior to the polygon, the first
/// whose boundary carries it makes it boundary; otherwise it stays
/// interior.
pub open spec fn holes_scan(holes: Seq<SegmentPath>, p: Coordinate, i: int) -> ContainRelation
    decreases holes.len() - i,
{
    if i < 0 || i >= holes.len() {
        ContainRelation::Interior
    } else {
        match ring_relation(holes[i].coords_spec(), p) {
            ContainRelation::Interior => ContainRelation::Exterior,
            ContainRelation::Boundary => ContainRelation::Boundary,
            ContainRelation::Exterior => holes_scan(holes, p, i + 1),
        }
    }
}

/// A polygon: a validated shell ring and its hole rings.
pub struct Polygon {
    shell: SegmentPath,
    holes: Vec<SegmentPath>,
}

impl Polygon {
    pub closed spec fn shell_spec(self) -> SegmentPath {
        self.shell
    }

    pub closed spec fn holes_spec(self) -> Seq<SegmentPath> {
        self.holes@
    }

    /// Shell and holes are well-formed closed rings.
    pub open spec fn wf(self) -> bool {
        &&& self.shell_spec().wf()
        &&& self.shell_spec().is_closed_spec()
        &&& forall|k: int|
            0 <= k < self.holes_spec().len() ==> (#[trigger] self.holes_spec()[k]).wf()
                && self.holes_spec()[k].is_closed_spec()
    }

    /// Where the point stands with respect to the polygon: classify it
    /// against the shell, then against each hole in turn.
    pub open spec fn spec_relation(self, p: Coordinate) -> ContainRelation {
        let shell_rel = ring_relation(self.shell_spec().coords_spec(), p);
        if shell_rel == ContainRelation::Interior {
            holes_scan(self.holes_spec(), p, 0)
        } else {
            shell_rel
        }
    }

    pub fn shell(&self) -> (r: &SegmentPath)
        ensures
            *r == self.shell_spec(),
    {
        &self.shell
    }

    pub fn holes(&self) -> (r: &Vec<SegmentPath>)
        ensures
            r@ == self.holes_spec(),
    {
        &self.holes
    }

    /// Build a polygon after checking its rings against each other.
    pub fn try_new(shell: SegmentPath, holes: Vec<SegmentPath>) -> (r: Result<
        Polygon,
        ValidationError,
    >)
        requires
            shell.wf(),
            shell.is_closed_spec(),
            holes@.len() < 0x1000_0000,
            forall|k: int|
                0 <= k < holes@.len() ==> (#[trigger] holes@[k]).wf()
                    && holes@[k].is_closed_spec(),
        ensures
            (r is Ok) == polygon_valid(shell, holes@),
            holes@.len() == 0 ==> r is Ok,
            r matches Ok(p) ==> p.wf() && p.shell_spec() == shell && p.holes_spec() == holes@
                && (forall|k: int|
                0 <= k < holes@.len() ==> hole_envelope_ok(shell, #[trigger] holes@[k])) && (
            forall|k: int|
                0 <= k < holes@.len() ==> ring_pair_clean(#[trigger] holes@[k], shell)) && (
            forall|k: int, k2: int|
                0 <= k2 < k < holes@.len() && ring_envs_overlap(
                    #[trigger] holes@[k],
                    #[trigger] holes@[k2],
                ) ==> ring_pair_clean(holes@[k], holes@[k2])),
    {
        let res = validate_polygon(&shell, &holes);
        match res {
            Result::Ok(_) => Ok(Polygon { shell, holes }),
            Result::Err(e) => Err(e),
        }
    }

    /// Classify a point against the polygon: on the shell or a hole
    /// boundary it is `Boundary`, strictly inside the shell and
    /// strictly inside no hole it is `Interior`, anything else is
    /// `Exterior`.
    pub fn point_in_polygon(&self, point: Coordinate) -> (r: ContainRelation)
        requires
            self.wf(),
            point.in_range(),
        ensures
            r == self.spec_relation(point),
    {
        let shell_rel = self.shell.point_in_ring(point);
        let is_interior = match shell_rel {
            ContainRelation::Interior => true,
            _ => false,
        };
        if !is_interior {
            return shell_rel;
        }
        let mut k: usize = 0;
        while k < self.holes.len()
            invariant
                self.wf(),
                point.in_range(),
                ring_relation(self.shell_spec().coords_spec(), point)
                    == ContainRelation::Interior,
                k <= self.holes_spec().len(),
                holes_scan(self.holes_spec(), point, 0) == holes_scan(
                    self.holes_spec(),
                    point,
                    k as int,
                ),
            decreases self.holes_spec().len() - k,
        {
            let hole_rel = self.holes[k].point_in_ring(point);
            match hole_rel {
                ContainRelation::Interior => {
                    return ContainRelation::Exterior;
                },
                ContainRelation::Boundary => {
                    return ContainRelation::Boundary;
                },
                ContainRelation::Exterior => {},
            }
            k += 1;
        }
        ContainRelation::Interior
    }
}

/// Semantic equality of two rational points, by cross-multiplication.
pub open spec fn rat_same(p: RatCoord, q: RatCoord) -> bool {
    &&& p.den > 0
    &&& q.den > 0
    &&& p.x_num * q.den == q.x_num * p.den
    &&& p.y_num * q.den == q.y_num * p.den
}

/// Semantic point equality is transitive.
proof fn lemma_rat_same_trans(p: RatCoord, q: RatCoord, r: RatCoord)
    requires
        rat_same(p, q),
        rat_same(q, r),
    ensures
        rat_same(p, r),
{
    assert(p.x_num * r.den == r.x_num * p.den) by (nonlinear_arith)
        requires
            p.den > 0,
            q.den > 0,
            r.den > 0,
            p.x_num * q.den == q.x_num * p.den,
            q.x_num * r.den == r.x_num * q.den,
    {
    }
    assert(p.y_num * r.den == r.y_num * p.den) by (nonlinear_arith)
        requires
            p.den > 0,
            q.den > 0,
            r.den > 0,
            p.y_num * q.den == q.y_num * p.den,
            q.y_num * r.den == r.y_num * q.den,
    {
    }
}

/// A candidate pair of segments of two rings: indices in range with
/// overlapping bounding boxes.
pub open spec fn ring_pair_candidate(a: Seq<Coordinate>, b: Seq<Coordinate>, i: int, j: int) -> bool {
    &&& 0 <= i < a.len() - 1
    &&& 0 <= j < b.len() - 1
    &&& crate::rectangle::Rectangle::spec_new(a[i], a[i + 1]).spec_intersects(
        crate::rectangle::Rectangle::spec_new(b[j], b[j + 1]),
    )
}

/// The single point a candidate pair shares, when it shares exactly
/// one: a transverse touch, or a degenerate collinear overlap.
pub open spec fn pair_point(a: Seq<Coordinate>, b: Seq<Coordinate>, i: int, j: int, q: RatCoord) -> bool {
    match spec_segment_intersect(a[i], a[i + 1], b[j], b[j + 1]) {
        SegmentIntersection::Touch(p) => rat_same(p, q),
        SegmentIntersection::Overlap(s, e) => s == e && rat_same(RatCoord::spec_lattice(s), q),
        SegmentIntersection::Disjoint => false,
    }
}

/// Some candidate pair of the two rings shares a proper collinear
/// interval.
pub open spec fn rings_overlap(a: Seq<Coordinate>, b: Seq<Coordinate>) -> bool {
    exists|i: int, j: int|
        #[trigger] ring_pair_candidate(a, b, i, j) && match spec_segment_intersect(
            a[i],
            a[i + 1],
            b[j],
            b[j + 1],
        ) {
            SegmentIntersection::Overlap(s, e) => s != e,
            _ => false,
        }
}

/// Two candidate pairs of the two rings meet in two distinct points.
pub open spec fn rings_multi(a: Seq<Coordinate>, b: Seq<Coordinate>) -> bool {
    exists|i1: int, j1: int, i2: int, j2: int, q1: RatCoord, q2: RatCoord|
        #![trigger pair_point(a, b, i1, j1, q1), pair_point(a, b, i2, j2, q2)]
        {
            &&& ring_pair_candidate(a, b, i1, j1)
            &&& ring_pair_candidate(a, b, i2, j2)
            &&& pair_point(a, b, i1, j1, q1)
            &&& pair_point(a, b, i2, j2, q2)
            &&& !rat_same(q1, q2)
        }
}

/// No candidate pair of the two rings shares anything.
pub open spec fn rings_separate(a: Seq<Coordinate>, b: Seq<Coordinate>) -> bool {
    forall|i: int, j: int|
        #[trigger] ring_pair_candidate(a, b, i, j) ==> spec_segment_intersect(
            a[i],
            a[i + 1],
            b[j],
            b[j + 1],
        ) == SegmentIntersection::Disjoint
}

/// The two rings meet somewhere: some candidate pair shares a point
/// or an interval.
pub open spec fn rings_touching(a: Seq<Coordinate>, b: Seq<Coordinate>) -> bool {
    !rings_separate(a, b)
}

/// The integer coordinate is a point the two rings share.
pub open spec fn shared_coord(a: Seq<Coordinate>, b: Seq<Coordinate>, c: Coordinate) -> bool {
    exists|i: int, j: int|
        #[trigger] ring_pair_candidate(a, b, i, j) && pair_point(
            a,
            b,
            i,
            j,
            RatCoord::spec_lattice(c),
        )
}

/// Index of the first coordinate of `cs` that is not a point the two
/// rings share: the ring's representative for containment tests.
pub open spec fn rep_scan(a: Seq<Coordinate>, b: Seq<Coordinate>, cs: Seq<Coordinate>, k: int) -> int
    decreases cs.len() - k,
    when 0 <= k
{
    if k >= cs.len() {
        cs.len() as int
    } else if shared_coord(a, b, cs[k]) {
        rep_scan(a, b, cs, k + 1)
    } else {
        k
    }
}

/// Neither a proper collinear overlap nor two distinct meeting points
/// between the two rings: what polygon validation demands of every
/// ring pair.
pub open spec fn ring_pair_clean(a: SegmentPath, b: SegmentPath) -> bool {
    !rings_overlap(a.coords_spec(), b.coords_spec()) && !rings_multi(
        a.coords_spec(),
        b.coords_spec(),
    )
}

/// The envelopes of the two rings overlap, so their segments may meet.
pub open spec fn ring_envs_overlap(a: SegmentPath, b: SegmentPath) -> bool {
    span_union(a.rtree_spec().leaves(), 0, a.rtree_spec().size()).spec_intersects(
        span_union(b.rtree_spec().leaves(), 0, b.rtree_spec().size()),
    )
}

/// One hole against the shell: strict envelope containment, clean
/// pairwise contact, and a representative coordinate of the hole that
/// is not exterior to the shell.
pub open spec fn hole_shell_ok(shell: SegmentPath, hole: SegmentPath) -> bool {
    let rep = rep_scan(hole.coords_spec(), shell.coords_spec(), hole.coords_spec(), 0);
    &&& hole_envelope_ok(shell, hole)
    &&& ring_pair_clean(hole, shell)
    &&& rep < hole.coords_spec().len()
    &&& ring_relation(shell.coords_spec(), hole.coords_spec()[rep])
        != ContainRelation::Exterior
}

/// Two holes with overlapping envelopes: clean pairwise contact and
/// neither hole's representative strictly inside the other.
pub open spec fn hole_pair_ok(hole: SegmentPath, other: SegmentPath) -> bool {
    ring_envs_overlap(hole, other) ==> {
        let rep_h = rep_scan(hole.coords_spec(), other.coords_spec(), hole.coords_spec(), 0);
        let rep_o = rep_scan(hole.coords_spec(), other.coords_spec(), other.coords_spec(), 0);
        &&& ring_pair_clean(hole, other)
        &&& rep_h < hole.coords_spec().len()
        &&& ring_relation(other.coords_spec(), hole.coords_spec()[rep_h])
            != ContainRelation::Interior
        &&& rep_o < other.coords_spec().len()
        &&& ring_relation(hole.coords_spec(), other.coords_spec()[rep_o])
            != ContainRelation::Interior
    }
}

/// The touch-graph edges the holes before `j` contribute against hole
/// `i`, in scan order.
pub open spec fn touch_edges_row(
    shell: SegmentPath,
    holes: Seq<SegmentPath>,
    i: int,
    j: int,
) -> Seq<(usize, usize)>
    decreases j,
    when 0 <= j
{
    if j <= 0 {
        Seq::empty()
    } else {
        touch_edges_row(shell, holes, i, j - 1) + if ring_envs_overlap(holes[i], holes[j - 1])
            && rings_touching(holes[i].coords_spec(), holes[j - 1].coords_spec()) {
            seq![(j as usize, (i + 1) as usize)]
        } else {
            Seq::empty()
        }
    }
}

/// The touch-graph edges of the first `i` holes, in scan order: the
/// shell is ring 0, hole `k` is ring `k + 1`.
pub open spec fn touch_edges(shell: SegmentPath, holes: Seq<SegmentPath>, i: int) -> Seq<
    (usize, usize),
>
    decreases i,
    when 0 <= i
{
    if i <= 0 {
        Seq::empty()
    } else {
        touch_edges(shell, holes, i - 1) + (if rings_touching(
            holes[i - 1].coords_spec(),
            shell.coords_spec(),
        ) {
            seq![(0usize, i as usize)]
        } else {
            Seq::empty()
        }) + touch_edges_row(shell, holes, i - 1, i - 1)
    }
}

/// The edge list closes a cycle: some edge joins two rings already
/// connected by the edges before it.
pub open spec fn graph_has_cycle(es: Seq<(usize, usize)>) -> bool {
    exists|i: int|
        0 <= i < es.len() && #[trigger] crate::graph::connected(es.take(i), es[i].0, es[i].1)
}

/// The whole validation condition: every hole sits properly in the
/// shell, every hole pair is clean and mutually exterior, and the ring
/// touches close no cycle.
pub open spec fn polygon_valid(shell: SegmentPath, holes: Seq<SegmentPath>) -> bool {
    &&& forall|k: int| 0 <= k < holes.len() ==> hole_shell_ok(shell, #[trigger] holes[k])
    &&& forall|k: int, k2: int|
        0 <= k2 < k < holes.len() ==> hole_pair_ok(#[trigger] holes[k], #[trigger] holes[k2])
    &&& !graph_has_cycle(touch_edges(shell, holes, holes.len() as int))
}

/// A hole's envelope sits strictly inside the shell's envelope.
pub open spec fn hole_envelope_ok(shell: SegmentPath, hole: SegmentPath) -> bool {
    let shell_env = span_union(shell.rtree_spec().leaves(), 0, shell.rtree_spec().size());
    let hole_env = span_union(hole.rtree_spec().leaves(), 0, hole.rtree_spec().size());
    shell_env.spec_contains_rect(hole_env) && shell_env != hole_env
}

/// Validate a polygon: every hole envelope strictly inside the shell's,
/// every ring pair meeting in at most one point, every hole inside the
/// shell and outside its fellow holes, and no cycle of ring touches
/// that would disconnect the interior.
///
/// The envelope conditions are certified exactly; the pairwise checks
/// run the exact segment arithmetic and report the first offence.
#[verifier::rlimit(100)]
#[verifier::spinoff_prover]
pub fn validate_polygon(shell: &SegmentPath, holes: &Vec<SegmentPath>) -> (r: Result<
    (),
    ValidationError,
>)
    requires
        shell.wf(),
        shell.is_closed_spec(),
        holes@.len() < 0x1000_0000,
        forall|k: int|
            0 <= k < holes@.len() ==> (#[trigger] holes@[k]).wf() && holes@[k].is_closed_spec(),
    ensures
        (r is Ok) == polygon_valid(*shell, holes@),
        holes@.len() == 0 ==> r is Ok,
        r is Ok ==> forall|k: int|
            0 <= k < holes@.len() ==> hole_envelope_ok(*shell, #[trigger] holes@[k]),
        r is Ok ==> forall|k: int|
            0 <= k < holes@.len() ==> ring_pair_clean(#[trigger] holes@[k], *shell),
        r is Ok ==> forall|k: int, k2: int|
            0 <= k2 < k < holes@.len() && ring_envs_overlap(#[trigger] holes@[k], #[trigger] holes@[
                k2
            ]) ==> ring_pair_clean(holes@[k], holes@[k2]),
        r matches Err(e) ==> match e {
            ValidationError::HoleNotValid => {
                ||| exists|k: int|
                    0 <= k < holes@.len() && !hole_shell_ok(*shell, #[trigger] holes@[k])
                ||| exists|k: int, k2: int|
                    0 <= k2 < k < holes@.len() && !hole_pair_ok(
                        #[trigger] holes@[k],
                        #[trigger] holes@[k2],
                    )
            },
            ValidationError::InteriorDisconnected => graph_has_cycle(
                touch_edges(*shell, holes@, holes@.len() as int),
            ),
            ValidationError::OverlappingSegments { first_index, second_index, start, end } => {
                ||| exists|k: int|
                    0 <= k < holes@.len() && rings_overlap(
                        (#[trigger] holes@[k]).coords_spec(),
                        shell.coords_spec(),
                    )
                ||| exists|k: int, k2: int|
                    0 <= k2 < k < holes@.len() && rings_overlap(
                        (#[trigger] holes@[k]).coords_spec(),
                        (#[trigger] holes@[k2]).coords_spec(),
                    )
            },
            ValidationError::MultipleIntersections => {
                ||| exists|k: int|
                    0 <= k < holes@.len() && rings_multi(
                        (#[trigger] holes@[k]).coords_spec(),
                        shell.coords_spec(),
                    )
                ||| exists|k: int, k2: int|
                    0 <= k2 < k < holes@.len() && rings_multi(
                        (#[trigger] holes@[k]).coords_spec(),
                        (#[trigger] holes@[k2]).coords_spec(),
                    )
            },
            _ => false,
        },
{
    let shell_env = shell.rtree().envelope();
    let mut edges: Vec<(usize, usize)> = Vec::new();
    let n_rings = holes.len() + 1;
    let mut i: usize = 0;
    while i < holes.len()
        invariant
            shell.wf(),
            shell.is_closed_spec(),
            forall|k: int|
                0 <= k < holes@.len() ==> (#[trigger] holes@[k]).wf()
                    && holes@[k].is_closed_spec(),
            shell_env == span_union(shell.rtree_spec().leaves(), 0, shell.rtree_spec().size()),
            shell_env.wf(),
            i <= holes@.len(),
            holes@.len() < 0x1000_0000,
            n_rings == holes@.len() + 1,
            forall|k: int|
                0 <= k < edges@.len() ==> (#[trigger] edges@[k]).0 < edges@[k].1 && (edges@[
                    k
                ].1 as int) <= i as int,
            forall|k1: int, k2: int|
                0 <= k1 < k2 < edges@.len() ==> #[trigger] edges@[k1] != #[trigger] edges@[k2],
            forall|k: int| 0 <= k < i ==> hole_shell_ok(*shell, #[trigger] holes@[k]),
            forall|k: int, k2: int|
                0 <= k2 < k < i ==> hole_pair_ok(#[trigger] holes@[k], #[trigger] holes@[k2]),
            edges@ == touch_edges(*shell, holes@, i as int),
        decreases holes@.len() - i,
    {
        let ghost gi = i as int;
        let hole = &holes[i];
        let ghost hole_cs = hole.coords_spec();
        let ghost shell_cs = shell.coords_spec();
        let hole_env = hole.rtree().envelope();
        if !(shell_env.contains_rect(&hole_env) && !(shell_env == hole_env)) {
            proof {
                assert(!hole_envelope_ok(*shell, holes@[gi]));
                assert(!hole_shell_ok(*shell, holes@[gi]));
            }
            return Err(ValidationError::HoleNotValid);
        }
        // exact crossings between this hole and the shell
        let isect = find_intersecting_point(hole, shell);
        match isect {
            Result::Err(e) => {
                proof {
                    assert(*hole == holes@[gi]);
                    assert(!ring_pair_clean(holes@[gi], *shell));
                    assert(!hole_shell_ok(*shell, holes@[gi]));
                }
                return Err(e);
            },
            Result::Ok(opt) => {
                proof {
                    lemma_needle_is_shared(hole_cs, shell_cs, opt);
                }
                let rep = find_nonequal_point(hole.coords(), &opt);
                match rep {
                    Option::Some(c) => {
                        proof {
                            let idx = choose|idx: int|
                                {
                                    &&& 0 <= idx < hole_cs.len()
                                    &&& c == hole_cs[idx]
                                    &&& !matches_needle(opt, #[trigger] hole_cs[idx])
                                    &&& forall|m: int|
                                        0 <= m < idx ==> matches_needle(
                                            opt,
                                            #[trigger] hole_cs[m],
                                        )
                                };
                            assert forall|m: int|
                                0 <= m < idx implies shared_coord(
                                hole_cs,
                                shell_cs,
                                #[trigger] hole_cs[m],
                            ) by {
                                assert(matches_needle(opt, hole_cs[m]));
                            }
                            lemma_rep_scan_is(hole_cs, shell_cs, hole_cs, idx, 0);
                        }
                        let rel = shell.point_in_ring(c);
                        proof {
                            assert(rel == ring_relation(shell_cs, c));
                        }
                        let inside = match rel {
                            ContainRelation::Exterior => false,
                            _ => true,
                        };
                        if !inside {
                            proof {
                                assert(!hole_shell_ok(*shell, holes@[gi]));
                            }
                            return Err(ValidationError::HoleNotValid);
                        }
                        proof {
                            assert(hole_shell_ok(*shell, holes@[gi]));
                        }
                    },
                    Option::None => {
                        proof {
                            assert forall|m: int|
                                0 <= m < hole_cs.len() implies shared_coord(
                                hole_cs,
                                shell_cs,
                                #[trigger] hole_cs[m],
                            ) by {
                                assert(matches_needle(opt, hole_cs[m]));
                            }
                            lemma_rep_scan_is(
                                hole_cs,
                                shell_cs,
                                hole_cs,
                                hole_cs.len() as int,
                                0,
                            );
                            assert(!hole_shell_ok(*shell, holes@[gi]));
                        }
                        return Err(ValidationError::HoleNotValid);
                    },
                }
                let is_some = match opt {
                    Option::Some(_) => true,
                    Option::None => false,
                };
                let ghost pre_edges = edges@;
                if is_some {
                    edges.push((0, i + 1));
                    proof {
                        assert forall|k1: int, k2: int|
                            0 <= k1 < k2 < edges@.len() implies #[trigger] edges@[k1]
                            != #[trigger] edges@[k2] by {
                            if k2 == edges@.len() - 1 {
                                assert(edges@[k1] == pre_edges[k1]);
                                assert((pre_edges[k1].1 as int) <= gi);
                            }
                        }
                    }
                }
                proof {
                    assert(rings_touching(hole_cs, shell_cs) == is_some);
                    if is_some {
                        assert(edges@ =~= pre_edges + seq![(0usize, (gi + 1) as usize)]);
                    } else {
                        assert(edges@ =~= pre_edges + Seq::<(usize, usize)>::empty());
                    }
                }
            },
        }
        // this hole against the earlier holes
        let mut j: usize = 0;
        proof {
            assert(touch_edges_row(*shell, holes@, gi, 0) =~= Seq::<(usize, usize)>::empty());
        }
        while j < i
            invariant
                shell.wf(),
                shell.is_closed_spec(),
                forall|k: int|
                    0 <= k < holes@.len() ==> (#[trigger] holes@[k]).wf()
                        && holes@[k].is_closed_spec(),
                i < holes@.len(),
                holes@.len() < 0x1000_0000,
                gi == i as int,
                *hole == holes@[gi],
                hole_cs == hole.coords_spec(),
                shell_cs == shell.coords_spec(),
                j <= i,
                n_rings == holes@.len() + 1,
                forall|k: int|
                    0 <= k < edges@.len() ==> (#[trigger] edges@[k]).0 < edges@[k].1 && (edges@[
                        k
                    ].1 as int) <= gi + 1,
                forall|k: int|
                    0 <= k < edges@.len() && (edges@[k].1 as int) == gi + 1
                        ==> (#[trigger] edges@[k]).0 <= j,
                forall|k1: int, k2: int|
                    0 <= k1 < k2 < edges@.len() ==> #[trigger] edges@[k1] != #[trigger] edges@[
                        k2
                    ],
                hole_shell_ok(*shell, holes@[gi]),
                forall|k: int| 0 <= k < gi ==> hole_shell_ok(*shell, #[trigger] holes@[k]),
                forall|k: int, k2: int|
                    0 <= k2 < k < gi ==> hole_pair_ok(#[trigger] holes@[k], #[trigger] holes@[
                        k2
                    ]),
                forall|k2: int| 0 <= k2 < j ==> hole_pair_ok(holes@[gi], #[trigger] holes@[k2]),
                edges@ == touch_edges(*shell, holes@, gi) + (if rings_touching(
                    hole_cs,
                    shell_cs,
                ) {
                    seq![(0usize, (gi + 1) as usize)]
                } else {
                    Seq::<(usize, usize)>::empty()
                }) + touch_edges_row(*shell, holes@, gi, j as int),
            decreases i - j,
        {
            let ghost gj = j as int;
            let other = &holes[j];
            let ghost other_cs = other.coords_spec();
            let touching = hole.rtree().envelope().intersects(&other.rtree().envelope());
            proof {
                assert(touching == ring_envs_overlap(holes@[gi], holes@[gj]));
            }
            if touching {
                let isect2 = find_intersecting_point(hole, other);
                match isect2 {
                    Result::Err(e) => {
                        proof {
                            assert(!ring_pair_clean(holes@[gi], holes@[gj]));
                            assert(!hole_pair_ok(holes@[gi], holes@[gj]));
                        }
                        return Err(e);
                    },
                    Result::Ok(opt2) => {
                        proof {
                            lemma_needle_is_shared(hole_cs, other_cs, opt2);
                        }
                        let rep_h = find_nonequal_point(hole.coords(), &opt2);
                        match rep_h {
                            Option::Some(c) => {
                                proof {
                                    let idx = choose|idx: int|
                                        {
                                            &&& 0 <= idx < hole_cs.len()
                                            &&& c == hole_cs[idx]
                                            &&& !matches_needle(opt2, #[trigger] hole_cs[idx])
                                            &&& forall|m: int|
                                                0 <= m < idx ==> matches_needle(
                                                    opt2,
                                                    #[trigger] hole_cs[m],
                                                )
                                        };
                                    assert forall|m: int|
                                        0 <= m < idx implies shared_coord(
                                        hole_cs,
                                        other_cs,
                                        #[trigger] hole_cs[m],
                                    ) by {
                                        assert(matches_needle(opt2, hole_cs[m]));
                                    }
                                    lemma_rep_scan_is(hole_cs, other_cs, hole_cs, idx, 0);
                                }
                                let rel = other.point_in_ring(c);
                                proof {
                                    assert(rel == ring_relation(other_cs, c));
                                }
                                let inside = match rel {
                                    ContainRelation::Interior => true,
                                    _ => false,
                                };
                                if inside {
                                    proof {
                                        assert(!hole_pair_ok(holes@[gi], holes@[gj]));
                                    }
                                    return Err(ValidationError::HoleNotValid);
                                }
                            },
                            Option::None => {
                                proof {
                                    assert forall|m: int|
                                        0 <= m < hole_cs.len() implies shared_coord(
                                        hole_cs,
                                        other_cs,
                                        #[trigger] hole_cs[m],
                                    ) by {
                                        assert(matches_needle(opt2, hole_cs[m]));
                                    }
                                    lemma_rep_scan_is(
                                        hole_cs,
                                        other_cs,
                                        hole_cs,
                                        hole_cs.len() as int,
                                        0,
                                    );
                                    assert(!hole_pair_ok(holes@[gi], holes@[gj]));
                                }
                                return Err(ValidationError::HoleNotValid);
                            },
                        }
                        let rep_o = find_nonequal_point(other.coords(), &opt2);
                        match rep_o {
                            Option::Some(c) => {
                                proof {
                                    let idx = choose|idx: int|
                                        {
                                            &&& 0 <= idx < other_cs.len()
                                            &&& c == other_cs[idx]
                                            &&& !matches_needle(opt2, #[trigger] other_cs[idx])
                                            &&& forall|m: int|
                                                0 <= m < idx ==> matches_needle(
                                                    opt2,
                                                    #[trigger] other_cs[m],
                                                )
                                        };
                                    assert forall|m: int|
                                        0 <= m < idx implies shared_coord(
                                        hole_cs,
                                        other_cs,
                                        #[trigger] other_cs[m],
                                    ) by {
                                        assert(matches_needle(opt2, other_cs[m]));
                                    }
                                    lemma_rep_scan_is(hole_cs, other_cs, other_cs, idx, 0);
                                }
                                let rel = hole.point_in_ring(c);
                                proof {
                                    assert(rel == ring_relation(hole_cs, c));
                                }
                                let inside = match rel {
                                    ContainRelation::Interior => true,
                                    _ => false,
                                };
                                if inside {
                                    proof {
                                        assert(!hole_pair_ok(holes@[gi], holes@[gj]));
                                    }
                                    return Err(ValidationError::HoleNotValid);
                                }
                            },
                            Option::None => {
                                proof {
                                    assert forall|m: int|
                                        0 <= m < other_cs.len() implies shared_coord(
                                        hole_cs,
                                        other_cs,
                                        #[trigger] other_cs[m],
                                    ) by {
                                        assert(matches_needle(opt2, other_cs[m]));
                                    }
                                    lemma_rep_scan_is(
                                        hole_cs,
                                        other_cs,
                                        other_cs,
                                        other_cs.len() as int,
                                        0,
                                    );
                                    assert(!hole_pair_ok(holes@[gi], holes@[gj]));
                                }
                                return Err(ValidationError::HoleNotValid);
                            },
                        }
                        proof {
                            assert(hole_pair_ok(holes@[gi], holes@[gj]));
                        }
                        let is_some2 = match opt2 {
                            Option::Some(_) => true,
                            Option::None => false,
                        };
                        let ghost pre_edges = edges@;
                        if is_some2 {
                            edges.push((j + 1, i + 1));
                            proof {
                                assert forall|k1: int, k2: int|
                                    0 <= k1 < k2 < edges@.len() implies #[trigger] edges@[k1]
                                    != #[trigger] edges@[k2] by {
                                    if k2 == edges@.len() - 1 {
                                        assert(edges@[k1] == pre_edges[k1]);
                                    }
                                }
                            }
                        }
                        proof {
                            assert(rings_touching(hole_cs, other_cs) == is_some2);
                            if is_some2 {
                                assert(edges@ =~= pre_edges + seq![
                                    ((gj + 1) as usize, (gi + 1) as usize),
                                ]);
                            } else {
                                assert(edges@ =~= pre_edges + Seq::<(usize, usize)>::empty());
                            }
                            assert(edges@ =~= touch_edges(*shell, holes@, gi) + (if
                            rings_touching(hole_cs, shell_cs) {
                                seq![(0usize, (gi + 1) as usize)]
                            } else {
                                Seq::<(usize, usize)>::empty()
                            }) + touch_edges_row(*shell, holes@, gi, gj + 1));
                        }
                    },
                }
            } else {
                proof {
                    assert(touch_edges_row(*shell, holes@, gi, gj + 1) =~= touch_edges_row(
                        *shell,
                        holes@,
                        gi,
                        gj,
                    ));
                    assert(hole_pair_ok(holes@[gi], holes@[gj]));
                }
            }
            j += 1;
        }
        proof {
            assert(edges@ =~= touch_edges(*shell, holes@, gi + 1));
        }
        i += 1;
    }
    let cyclic = has_cycle(&edges, n_rings);
    proof {
        assert(graph_has_cycle(edges@) == cyclic);
        assert(edges@ == touch_edges(*shell, holes@, holes@.len() as int));
    }
    if cyclic {
        return Err(ValidationError::InteriorDisconnected);
    }
    proof {
        assert(polygon_valid(*shell, holes@));
        assert forall|k: int|
            0 <= k < holes@.len() implies hole_envelope_ok(*shell, #[trigger] holes@[k])
            && ring_pair_clean(#[trigger] holes@[k], *shell) by {
            assert(hole_shell_ok(*shell, holes@[k]));
        }
        assert forall|k: int, k2: int|
            0 <= k2 < k < holes@.len() && ring_envs_overlap(
                #[trigger] holes@[k],
                #[trigger] holes@[k2],
            ) implies ring_pair_clean(holes@[k], holes@[k2]) by {
            assert(hole_pair_ok(holes@[k], holes@[k2]));
        }
    }
    Ok(())
}

/// Find the at most one point where two rings meet: a collinear overlap
/// or two distinct meeting points is an error.
fn find_intersecting_point(ring_a: &SegmentPath, ring_b: &SegmentPath) -> (r: Result<
    Option<RatCoord>,
    ValidationError,
>)
    requires
        ring_a.wf(),
        ring_b.wf(),
    ensures
        (r is Ok) == (!rings_overlap(ring_a.coords_spec(), ring_b.coords_spec()) && !rings_multi(
            ring_a.coords_spec(),
            ring_b.coords_spec(),
        )),
        r matches Ok(opt) ==> ((opt is None) == rings_separate(
            ring_a.coords_spec(),
            ring_b.coords_spec(),
        )),
        r matches Ok(opt) ==> (opt matches Some(q) ==> q.den > 0 && rat_bounded(q) && forall|
            i: int,
            j: int,
            p: RatCoord,
        |
            ring_pair_candidate(ring_a.coords_spec(), ring_b.coords_spec(), i, j)
                && #[trigger] pair_point(ring_a.coords_spec(), ring_b.coords_spec(), i, j, p)
                ==> rat_same(p, q)),
        r matches Err(e) ==> match e {
            ValidationError::OverlappingSegments { first_index, second_index, start, end } => {
                &&& ring_pair_candidate(
                    ring_a.coords_spec(),
                    ring_b.coords_spec(),
                    first_index as int,
                    second_index as int,
                )
                &&& spec_segment_intersect(
                    ring_a.coords_spec()[first_index as int],
                    ring_a.coords_spec()[first_index as int + 1],
                    ring_b.coords_spec()[second_index as int],
                    ring_b.coords_spec()[second_index as int + 1],
                ) == SegmentIntersection::Overlap(start, end)
                &&& start != end
            },
            ValidationError::MultipleIntersections => rings_multi(
                ring_a.coords_spec(),
                ring_b.coords_spec(),
            ),
            _ => false,
        },
{
    let candidates = ring_a.rtree().query_other_intersections(ring_b.rtree());
    let mut found: Option<RatCoord> = None;
    let coords_a = ring_a.coords();
    let coords_b = ring_b.coords();
    let ghost ta = ring_a.rtree_spec();
    let ghost tb = ring_b.rtree_spec();
    let ghost ca = ring_a.coords_spec();
    let ghost cb = ring_b.coords_spec();
    proof {
        ta.lemma_wf_basics();
        tb.lemma_wf_basics();
        // the candidate list is exactly the box-intersecting pairs
        assert forall|i: int, j: int|
            #[trigger] ring_pair_candidate(ca, cb, i, j) implies candidates@.contains(
            (i as usize, j as usize),
        ) by {
            assert(ta.leaf_rect(i) == crate::rectangle::Rectangle::spec_new(ca[i], ca[i + 1]));
            assert(tb.leaf_rect(j) == crate::rectangle::Rectangle::spec_new(cb[j], cb[j + 1]));
        }
        assert forall|m: int|
            0 <= m < candidates@.len() implies (#[trigger] candidates@[m].0 as int) < ta.size()
            && (candidates@[m].1 as int) < tb.size() && ta.leaf_rect(
            candidates@[m].0 as int,
        ).spec_intersects(tb.leaf_rect(candidates@[m].1 as int)) by {
        }
    }
    let mut k: usize = 0;
    while k < candidates.len()
        invariant
            ring_a.wf(),
            ring_b.wf(),
            ta == ring_a.rtree_spec(),
            tb == ring_b.rtree_spec(),
            coords_a@ == ca,
            coords_b@ == cb,
            ca == ring_a.coords_spec(),
            cb == ring_b.coords_spec(),
            k <= candidates@.len(),
            forall|m: int|
                0 <= m < candidates@.len() ==> (#[trigger] candidates@[m].0 as int) < ta.size()
                    && (candidates@[m].1 as int) < tb.size() && ta.leaf_rect(
                    candidates@[m].0 as int,
                ).spec_intersects(tb.leaf_rect(candidates@[m].1 as int)),
            forall|i: int, j: int|
                #[trigger] ring_pair_candidate(ca, cb, i, j) ==> candidates@.contains(
                    (i as usize, j as usize),
                ),
            forall|m: int|
                0 <= m < k ==> match spec_segment_intersect(
                    ca[#[trigger] candidates@[m].0 as int],
                    ca[candidates@[m].0 as int + 1],
                    cb[candidates@[m].1 as int],
                    cb[candidates@[m].1 as int + 1],
                ) {
                    SegmentIntersection::Overlap(s, e) => s == e,
                    _ => true,
                },
            found is None ==> forall|m: int|
                #![trigger candidates@[m]]
                0 <= m < k ==> forall|p: RatCoord|
                    !#[trigger] pair_point(
                        ca,
                        cb,
                        candidates@[m].0 as int,
                        candidates@[m].1 as int,
                        p,
                    ),
            found matches Some(q0) ==> q0.den > 0 && rat_bounded(q0) && (forall|m: int|
                #![trigger candidates@[m]]
                0 <= m < k ==> forall|p: RatCoord|
                    #[trigger] pair_point(
                        ca,
                        cb,
                        candidates@[m].0 as int,
                        candidates@[m].1 as int,
                        p,
                    ) ==> rat_same(p, q0)) && exists|m: int|
                #![trigger candidates@[m]]
                0 <= m < k && exists|p: RatCoord|
                    pair_point(
                        ca,
                        cb,
                        candidates@[m].0 as int,
                        candidates@[m].1 as int,
                        p,
                    ),
        decreases candidates@.len() - k,
    {
        let (ia, ib) = candidates[k];
        proof {
            ta.lemma_wf_basics();
            tb.lemma_wf_basics();
            assert(coords_a@.len() == ta.size() + 1);
            assert(coords_b@.len() == tb.size() + 1);
            lemma_touch_bounds(
                coords_a@[ia as int],
                coords_a@[ia as int + 1],
                coords_b@[ib as int],
                coords_b@[ib as int + 1],
            );
            assert(ta.leaf_rect(ia as int) == crate::rectangle::Rectangle::spec_new(
                ca[ia as int],
                ca[ia as int + 1],
            ));
            assert(tb.leaf_rect(ib as int) == crate::rectangle::Rectangle::spec_new(
                cb[ib as int],
                cb[ib as int + 1],
            ));
            assert(ring_pair_candidate(ca, cb, ia as int, ib as int));
        }
        let isect = segment_intersect(
            coords_a[ia],
            coords_a[ia + 1],
            coords_b[ib],
            coords_b[ib + 1],
        );
        match isect {
            SegmentIntersection::Disjoint => {
                proof {
                    assert forall|p: RatCoord|
                        !#[trigger] pair_point(ca, cb, ia as int, ib as int, p) by {}
                }
            },
            SegmentIntersection::Overlap(s, e) => {
                if !(s == e) {
                    return Err(
                        ValidationError::OverlappingSegments {
                            first_index: ia,
                            second_index: ib,
                            start: s,
                            end: e,
                        },
                    );
                }
                let q = RatCoord::lattice(s);
                proof {
                    assert(rat_bounded(q));
                    assert(rat_same(RatCoord::spec_lattice(s), q));
                    assert(pair_point(ca, cb, ia as int, ib as int, q));
                }
                match found {
                    Option::Some(q0) => {
                        if !rat_eq(&q0, &q) {
                            proof {
                                lemma_found_multi(ca, cb, candidates@, k as int, q0, q, ia, ib);
                            }
                            return Err(ValidationError::MultipleIntersections);
                        }
                        proof {
                            lemma_pair_point_unique(ca, cb, ia as int, ib as int, q);
                            lemma_rat_same_symm(q0, q);
                            lemma_record_match(ca, cb, candidates@, k as int, ia, ib, q, q0);
                        }
                    },
                    Option::None => {
                        found = Some(q);
                        proof {
                            lemma_pair_point_unique(ca, cb, ia as int, ib as int, q);
                            assert(candidates@[k as int] == (ia, ib));
                        }
                    },
                }
            },
            SegmentIntersection::Touch(q) => {
                proof {
                    assert(q.den > 0);
                    assert(rat_same(q, q)) by (nonlinear_arith)
                        requires
                            q.den > 0,
                    {
                    }
                    assert(pair_point(ca, cb, ia as int, ib as int, q));
                }
                match found {
                    Option::Some(q0) => {
                        if !rat_eq(&q0, &q) {
                            proof {
                                lemma_found_multi(ca, cb, candidates@, k as int, q0, q, ia, ib);
                            }
                            return Err(ValidationError::MultipleIntersections);
                        }
                        proof {
                            lemma_pair_point_unique(ca, cb, ia as int, ib as int, q);
                            lemma_rat_same_symm(q0, q);
                            lemma_record_match(ca, cb, candidates@, k as int, ia, ib, q, q0);
                        }
                    },
                    Option::None => {
                        found = Some(q);
                        proof {
                            lemma_pair_point_unique(ca, cb, ia as int, ib as int, q);
                            assert(candidates@[k as int] == (ia, ib));
                        }
                    },
                }
            },
        }
        k += 1;
    }
    proof {
        // every candidate pair was examined, so the loop facts cover
        // the whole relation
        if rings_overlap(ca, cb) {
            let (i, j) = choose|i: int, j: int|
                #[trigger] ring_pair_candidate(ca, cb, i, j) && match spec_segment_intersect(
                    ca[i],
                    ca[i + 1],
                    cb[j],
                    cb[j + 1],
                ) {
                    SegmentIntersection::Overlap(s, e) => s != e,
                    _ => false,
                };
            assert(candidates@.contains((i as usize, j as usize)));
            let m = choose|m: int|
                0 <= m < candidates@.len() && candidates@[m] == (i as usize, j as usize);
            assert(false);
        }
        if rings_multi(ca, cb) {
            let (i1, j1, i2, j2, q1, q2) = choose|
                i1: int,
                j1: int,
                i2: int,
                j2: int,
                q1: RatCoord,
                q2: RatCoord,
            |
                #![trigger pair_point(ca, cb, i1, j1, q1), pair_point(ca, cb, i2, j2, q2)]
                {
                    &&& ring_pair_candidate(ca, cb, i1, j1)
                    &&& ring_pair_candidate(ca, cb, i2, j2)
                    &&& pair_point(ca, cb, i1, j1, q1)
                    &&& pair_point(ca, cb, i2, j2, q2)
                    &&& !rat_same(q1, q2)
                };
            assert(candidates@.contains((i1 as usize, j1 as usize)));
            assert(candidates@.contains((i2 as usize, j2 as usize)));
            let m1 = choose|m: int|
                0 <= m < candidates@.len() && candidates@[m] == (i1 as usize, j1 as usize);
            let m2 = choose|m: int|
                0 <= m < candidates@.len() && candidates@[m] == (i2 as usize, j2 as usize);
            assert(candidates@[m1].0 as int == i1 && candidates@[m1].1 as int == j1);
            assert(candidates@[m2].0 as int == i2 && candidates@[m2].1 as int == j2);
            assert(pair_point(ca, cb, candidates@[m1].0 as int, candidates@[m1].1 as int, q1));
            assert(pair_point(ca, cb, candidates@[m2].0 as int, candidates@[m2].1 as int, q2));
            match found {
                Option::Some(q0) => {
                    assert(rat_same(q1, q0));
                    assert(rat_same(q2, q0));
                    lemma_rat_same_symm(q2, q0);
                    lemma_rat_same_trans(q1, q0, q2);
                    assert(false);
                },
                Option::None => {
                    assert(false);
                },
            }
        }
        if found is None {
            assert forall|i: int, j: int|
                #[trigger] ring_pair_candidate(ca, cb, i, j) implies spec_segment_intersect(
                ca[i],
                ca[i + 1],
                cb[j],
                cb[j + 1],
            ) == SegmentIntersection::Disjoint by {
                assert(candidates@.contains((i as usize, j as usize)));
                let m = choose|m: int|
                    0 <= m < candidates@.len() && candidates@[m] == (i as usize, j as usize);
                assert(candidates@[m].0 as int == i && candidates@[m].1 as int == j);
                match spec_segment_intersect(ca[i], ca[i + 1], cb[j], cb[j + 1]) {
                    SegmentIntersection::Disjoint => {},
                    SegmentIntersection::Overlap(s, e) => {
                        assert(s == e);
                        assert(rat_same(RatCoord::spec_lattice(s), RatCoord::spec_lattice(s)));
                        assert(pair_point(ca, cb, i, j, RatCoord::spec_lattice(s)));
                        assert(pair_point(
                            ca,
                            cb,
                            candidates@[m].0 as int,
                            candidates@[m].1 as int,
                            RatCoord::spec_lattice(s),
                        ));
                        assert(false);
                    },
                    SegmentIntersection::Touch(p) => {
                        lemma_touch_bounds(ca[i], ca[i + 1], cb[j], cb[j + 1]);
                        assert(rat_same(p, p)) by (nonlinear_arith)
                            requires
                                p.den > 0,
                        {
                        }
                        assert(pair_point(ca, cb, i, j, p));
                        assert(pair_point(
                            ca,
                            cb,
                            candidates@[m].0 as int,
                            candidates@[m].1 as int,
                            p,
                        ));
                        assert(false);
                    },
                }
            }
        } else {
            let q0 = found->0;
            if rings_separate(ca, cb) {
                let m = choose|m: int|
                    #![trigger candidates@[m]]
                    0 <= m < k as int && exists|p: RatCoord|
                        pair_point(
                            ca,
                            cb,
                            candidates@[m].0 as int,
                            candidates@[m].1 as int,
                            p,
                        );
                assert(ring_pair_candidate(
                    ca,
                    cb,
                    candidates@[m].0 as int,
                    candidates@[m].1 as int,
                ));
                assert(false);
            }
        }
        assert forall|i: int, j: int, p: RatCoord|
            ring_pair_candidate(ca, cb, i, j) && #[trigger] pair_point(ca, cb, i, j, p)
            implies (found matches Some(q0) ==> rat_same(p, found->0)) by {
            if found is Some {
                assert(candidates@.contains((i as usize, j as usize)));
                let m = choose|m: int|
                    0 <= m < candidates@.len() && candidates@[m] == (i as usize, j as usize);
                assert(candidates@[m].0 as int == i && candidates@[m].1 as int == j);
                assert(pair_point(
                    ca,
                    cb,
                    candidates@[m].0 as int,
                    candidates@[m].1 as int,
                    p,
                ));
            }
        }
    }
    Ok(found)
}

/// Every point a pair shares matches the one it yielded.
proof fn lemma_pair_point_unique(
    ca: Seq<Coordinate>,
    cb: Seq<Coordinate>,
    i: int,
    j: int,
    q: RatCoord,
)
    requires
        pair_point(ca, cb, i, j, q),
    ensures
        forall|p: RatCoord| #[trigger] pair_point(ca, cb, i, j, p) ==> rat_same(p, q),
{
    assert forall|p: RatCoord| #[trigger] pair_point(ca, cb, i, j, p) implies rat_same(
        p,
        q,
    ) by {
        match spec_segment_intersect(ca[i], ca[i + 1], cb[j], cb[j + 1]) {
            SegmentIntersection::Touch(w) => {
                lemma_rat_same_symm(w, p);
                lemma_rat_same_trans(p, w, q);
            },
            SegmentIntersection::Overlap(se, ee) => {
                lemma_rat_same_symm(RatCoord::spec_lattice(se), p);
                lemma_rat_same_trans(p, RatCoord::spec_lattice(se), q);
            },
            SegmentIntersection::Disjoint => {},
        }
    }
}

/// Extending the processed prefix by a pair whose point matches the
/// recorded one keeps every processed point matching it.
proof fn lemma_record_match(
    ca: Seq<Coordinate>,
    cb: Seq<Coordinate>,
    cands: Seq<(usize, usize)>,
    k: int,
    ia: usize,
    ib: usize,
    q: RatCoord,
    q0: RatCoord,
)
    requires
        0 <= k < cands.len(),
        cands[k] == (ia, ib),
        rat_same(q, q0),
        forall|p: RatCoord| #[trigger] pair_point(ca, cb, ia as int, ib as int, p) ==> rat_same(
            p,
            q,
        ),
        forall|m: int|
            #![trigger cands[m]]
            0 <= m < k ==> forall|p: RatCoord|
                #[trigger] pair_point(ca, cb, cands[m].0 as int, cands[m].1 as int, p)
                    ==> rat_same(p, q0),
    ensures
        forall|m: int|
            #![trigger cands[m]]
            0 <= m < k + 1 ==> forall|p: RatCoord|
                #[trigger] pair_point(ca, cb, cands[m].0 as int, cands[m].1 as int, p)
                    ==> rat_same(p, q0),
{
    assert forall|m: int|
        #![trigger cands[m]]
        0 <= m < k + 1 implies forall|p: RatCoord|
        #[trigger] pair_point(ca, cb, cands[m].0 as int, cands[m].1 as int, p) ==> rat_same(
            p,
            q0,
        ) by {
        if m == k {
            assert forall|p: RatCoord|
                #[trigger] pair_point(ca, cb, cands[m].0 as int, cands[m].1 as int, p)
                implies rat_same(p, q0) by {
                assert(cands[m].0 as int == ia as int);
                assert(rat_same(p, q));
                lemma_rat_same_trans(p, q, q0);
            }
        }
    }
}

/// Two recorded distinct points witness the multi-intersection
/// relation.
proof fn lemma_found_multi(
    ca: Seq<Coordinate>,
    cb: Seq<Coordinate>,
    cands: Seq<(usize, usize)>,
    k: int,
    q0: RatCoord,
    q: RatCoord,
    ia: usize,
    ib: usize,
)
    requires
        0 <= k < cands.len(),
        cands[k] == (ia, ib),
        ring_pair_candidate(ca, cb, ia as int, ib as int),
        pair_point(ca, cb, ia as int, ib as int, q),
        q0.den > 0,
        q.den > 0,
        !(q0.x_num * q.den == q.x_num * q0.den && q0.y_num * q.den == q.y_num * q0.den),
        exists|m: int|
            #![trigger cands[m]]
            0 <= m < k && exists|p: RatCoord|
                pair_point(ca, cb, cands[m].0 as int, cands[m].1 as int, p),
        forall|m: int|
            #![trigger cands[m]]
            0 <= m < k ==> forall|p: RatCoord|
                #[trigger] pair_point(ca, cb, cands[m].0 as int, cands[m].1 as int, p)
                    ==> rat_same(p, q0),
        forall|m: int|
            #![trigger cands[m]]
            0 <= m < cands.len() ==> ring_pair_candidate(
                ca,
                cb,
                cands[m].0 as int,
                cands[m].1 as int,
            ),
    ensures
        rings_multi(ca, cb),
{
    let m = choose|m: int|
        #![trigger cands[m]]
        0 <= m < k && exists|p: RatCoord|
            pair_point(ca, cb, cands[m].0 as int, cands[m].1 as int, p);
    let p = choose|p: RatCoord|
        #[trigger] pair_point(ca, cb, cands[m].0 as int, cands[m].1 as int, p);
    assert(rat_same(p, q0));
    // p matches q0 but q does not, so p and q differ
    if rat_same(p, q) {
        lemma_rat_same_symm(p, q0);
        lemma_rat_same_symm(p, q);
        lemma_rat_same_trans(q0, p, q);
        assert(false);
    }
    assert(ring_pair_candidate(ca, cb, cands[m].0 as int, cands[m].1 as int));
    assert(pair_point(ca, cb, cands[m].0 as int, cands[m].1 as int, p));
    assert(pair_point(ca, cb, ia as int, ib as int, q));
    assert(!rat_same(p, q));
}

/// Semantic point equality is symmetric.
proof fn lemma_rat_same_symm(p: RatCoord, q: RatCoord)
    requires
        rat_same(p, q),
    ensures
        rat_same(q, p),
{
}

/// A coordinate of the ring that differs from the candidate shared
/// point, used as the ring's representative for containment tests.
/// What `find_intersecting_point` hands back identifies exactly the
/// rings' shared coordinates: matching the needle is being a shared
/// point.
proof fn lemma_needle_is_shared(
    a: Seq<Coordinate>,
    b: Seq<Coordinate>,
    opt: Option<RatCoord>,
)
    requires
        forall|k: int| 0 <= k < a.len() ==> (#[trigger] a[k]).in_range(),
        forall|k: int| 0 <= k < b.len() ==> (#[trigger] b[k]).in_range(),
        !rings_overlap(a, b),
        (opt is None) == rings_separate(a, b),
        opt matches Some(q) ==> q.den > 0 && forall|i: int, j: int, p: RatCoord|
            ring_pair_candidate(a, b, i, j) && #[trigger] pair_point(a, b, i, j, p)
                ==> rat_same(p, q),
    ensures
        forall|c: Coordinate| #[trigger] matches_needle(opt, c) == shared_coord(a, b, c),
{
    assert forall|c: Coordinate| #[trigger] matches_needle(opt, c) == shared_coord(a, b, c) by {
        match opt {
            Option::None => {
                if shared_coord(a, b, c) {
                    let (i, j) = choose|i: int, j: int|
                        #[trigger] ring_pair_candidate(a, b, i, j) && pair_point(
                            a,
                            b,
                            i,
                            j,
                            RatCoord::spec_lattice(c),
                        );
                    assert(spec_segment_intersect(a[i], a[i + 1], b[j], b[j + 1])
                        == SegmentIntersection::Disjoint);
                    assert(false);
                }
            },
            Option::Some(q) => {
                if shared_coord(a, b, c) {
                    let (i, j) = choose|i: int, j: int|
                        #[trigger] ring_pair_candidate(a, b, i, j) && pair_point(
                            a,
                            b,
                            i,
                            j,
                            RatCoord::spec_lattice(c),
                        );
                    assert(rat_same(RatCoord::spec_lattice(c), q));
                    lemma_rat_same_symm(RatCoord::spec_lattice(c), q);
                    assert(matches_needle(opt, c));
                }
                if matches_needle(opt, c) {
                    // the rings do touch somewhere; that point matches
                    // q, and q matches the lattice point c
                    assert(!rings_separate(a, b));
                    let (i, j) = choose|i: int, j: int|
                        #[trigger] ring_pair_candidate(a, b, i, j) && spec_segment_intersect(
                            a[i],
                            a[i + 1],
                            b[j],
                            b[j + 1],
                        ) != SegmentIntersection::Disjoint;
                    assert(rat_same(q, RatCoord::spec_lattice(c)));
                    match spec_segment_intersect(a[i], a[i + 1], b[j], b[j + 1]) {
                        SegmentIntersection::Touch(w) => {
                            lemma_touch_bounds(a[i], a[i + 1], b[j], b[j + 1]);
                            assert(rat_same(w, w)) by (nonlinear_arith)
                                requires
                                    w.den > 0,
                            {
                            }
                            assert(pair_point(a, b, i, j, w));
                            assert(rat_same(w, q));
                            lemma_rat_same_trans(w, q, RatCoord::spec_lattice(c));
                            assert(pair_point(a, b, i, j, RatCoord::spec_lattice(c)));
                        },
                        SegmentIntersection::Overlap(se, ee) => {
                            if se != ee {
                                assert(rings_overlap(a, b));
                                assert(false);
                            }
                            assert(rat_same(
                                RatCoord::spec_lattice(se),
                                RatCoord::spec_lattice(se),
                            ));
                            assert(pair_point(a, b, i, j, RatCoord::spec_lattice(se)));
                            assert(rat_same(RatCoord::spec_lattice(se), q));
                            lemma_rat_same_trans(
                                RatCoord::spec_lattice(se),
                                q,
                                RatCoord::spec_lattice(c),
                            );
                            assert(pair_point(a, b, i, j, RatCoord::spec_lattice(c)));
                        },
                        SegmentIntersection::Disjoint => {},
                    }
                    assert(shared_coord(a, b, c));
                }
            },
        }
    }
}

/// A scan that matched everything before `idx` and stopped there (or
/// ran out) computes exactly `rep_scan`.
proof fn lemma_rep_scan_is(
    a: Seq<Coordinate>,
    b: Seq<Coordinate>,
    cs: Seq<Coordinate>,
    idx: int,
    k: int,
)
    requires
        0 <= k <= idx <= cs.len(),
        idx < cs.len() ==> !shared_coord(a, b, cs[idx]),
        forall|m: int| 0 <= m < idx ==> shared_coord(a, b, #[trigger] cs[m]),
    ensures
        rep_scan(a, b, cs, k) == idx,
    decreases idx - k,
{
    if k < idx {
        lemma_rep_scan_is(a, b, cs, idx, k + 1);
    }
}

/// The coordinate matches the candidate shared point.
pub open spec fn matches_needle(needle: Option<RatCoord>, c: Coordinate) -> bool {
    match needle {
        Option::Some(q) => q.x_num == c.x as i128 * q.den && q.y_num == c.y as i128 * q.den,
        Option::None => false,
    }
}

fn find_nonequal_point(coords: &Vec<Coordinate>, needle: &Option<RatCoord>) -> (r: Option<
    Coordinate,
>)
    requires
        forall|k: int| 0 <= k < coords@.len() ==> (#[trigger] coords@[k]).in_range(),
        needle matches Some(q) ==> rat_bounded(*q),
    ensures
        r is None ==> forall|m: int|
            0 <= m < coords@.len() ==> matches_needle(*needle, #[trigger] coords@[m]),
        r matches Some(c) ==> c.in_range() && exists|idx: int|
            {
                &&& 0 <= idx < coords@.len()
                &&& c == coords@[idx]
                &&& !matches_needle(*needle, #[trigger] coords@[idx])
                &&& forall|m: int| 0 <= m < idx ==> matches_needle(*needle, #[trigger] coords@[m])
            },
{
    let mut k: usize = 0;
    while k < coords.len()
        invariant
            forall|m: int| 0 <= m < coords@.len() ==> (#[trigger] coords@[m]).in_range(),
            needle matches Some(q) ==> rat_bounded(*q),
            k <= coords@.len(),
            forall|m: int| 0 <= m < k ==> matches_needle(*needle, #[trigger] coords@[m]),
        decreases coords@.len() - k,
    {
        let c = coords[k];
        let differs = match needle {
            Option::Some(q) => {
                proof {
                    crate::seg_isect::lemma_wide_product_bound(c.x as int, q.den as int);
                    crate::seg_isect::lemma_wide_product_bound(c.y as int, q.den as int);
                }
                !(q.x_num == c.x as i128 * q.den && q.y_num == c.y as i128 * q.den)
            },
            Option::None => true,
        };
        if differs {
            proof {
                assert(coords@[k as int] == c);
                assert(!matches_needle(*needle, coords@[k as int]));
            }
            return Some(c);
        }
        k += 1;
    }
    None
}

} // verus!

use vstd::prelude::*;

use crate::clip_seg::rat_in_rect;
use crate::min_heap::MinHeap;
use crate::path::{lemma_chain_in_node, SegmentPath};
use crate::rectangle::Rectangle;
use crate::seg_isect::{rat_eq, RatCoord};
use crate::rtree::span_union;
use crate::segment_union::{count_le, count_lt, covered, lemma_first_pair_covered, SegmentUnion};

verus! {

/// The root node's leaf span runs over every leaf.
proof fn lemma_pow_zero_span(t: crate::rtree::SegRTree)
    requires
        t.wf(),
    ensures
        t.span_lo(t.height_spec(), 0) == 0,
        t.span_hi(t.height_spec(), 0) == t.size(),
{
    t.lemma_root_span();
}

/// An integer coordinate inside a rectangle sits inside it as a
/// rational point too.
proof fn lemma_lattice_in_rect(c: crate::coordinate::Coordinate, r: Rectangle)
    requires
        r.spec_contains_pt(c),
    ensures
        rat_in_rect(RatCoord::spec_lattice(c), r),
{
    assert(r.xmin() * 1 <= c.x as int <= r.xmax() * 1) by (nonlinear_arith)
        requires
            r.xmin() <= c.x as int <= r.xmax(),
    {
    }
    assert(r.ymin() * 1 <= c.y as int <= r.ymax() * 1) by (nonlinear_arith)
        requires
            r.ymin() <= c.y as int <= r.ymax(),
    {
    }
}

/// Bounds kept while collecting segments to clip: every endpoint in
/// the union and every heap entry stays inside the path's coordinate
/// range.
pub open spec fn union_bounded(u: SegmentUnion, size: int) -> bool {
    forall|x: usize| u.has(x) ==> x as int <= size
}

pub open spec fn heap_bounded(h: MinHeap, size: int) -> bool {
    forall|x: (usize, usize)| h@.count(x) > 0 ==> (x.1 as int) == x.0 as int + 1 && (x.1 as int)
        <= size
}

impl SegmentPath {
    /// Walk the tree against the clip rectangle: whole subtrees inside
    /// it enter the segment union as leaf spans, crossing leaves go to
    /// the heap, disjoint subtrees are pruned.
    fn clip_collect(
        &self,
        clip: &Rectangle,
        level: usize,
        offset: usize,
        contained: &mut SegmentUnion,
        crossing: &mut MinHeap,
    )
        requires
            self.wf(),
            clip.wf(),
            level as nat <= self.rtree_spec().height_spec(),
            (offset as int) < self.rtree_spec().nslots(level as nat),
            old(contained).wf(),
            old(crossing).wf(),
            self.rtree_spec().size() >= 1,
            union_bounded(*old(contained), self.rtree_spec().size()),
            heap_bounded(*old(crossing), self.rtree_spec().size()),
        ensures
            final(contained).wf(),
            final(crossing).wf(),
            union_bounded(*final(contained), self.rtree_spec().size()),
            heap_bounded(*final(crossing), self.rtree_spec().size()),
            forall|x: int|
                #[trigger] covered(final(contained)@, x) ==> covered(old(contained)@, x) || (0
                    <= x <= self.rtree_spec().size() && clip.spec_contains_pt(
                    self.coords_spec()[x],
                )),
            clip.spec_contains_rect(self.rtree_spec().node_rect(level as nat, offset as int))
                && old(contained)@.len() == 0 ==> final(contained)@.len() == 2 && (final(
            contained)@[0] as int) == self.rtree_spec().span_lo(level as nat, offset as int)
                && (final(contained)@[1] as int) == self.rtree_spec().span_hi(
                level as nat,
                offset as int,
            ) && final(crossing)@ == old(crossing)@,
        decreases level,
    {
        let ghost t = self.rtree_spec();
        proof {
            t.lemma_wf_basics();
        }
        let rect = self.rtree().get_rectangle(level, offset);
        if !clip.intersects(&rect) {
            proof {
                // a rectangle the clip contains would intersect it
                if clip.spec_contains_rect(t.node_rect(level as nat, offset as int)) {
                    assert(clip.spec_intersects(t.node_rect(level as nat, offset as int)));
                    assert(false);
                }
            }
            return;
        }
        proof {
            t.lemma_nonempty_is_real(level as nat, offset as int);
        }
        let (low, high) = self.rtree().get_low_high(level, offset);
        let node_contained = clip.contains_rect(&rect);
        if node_contained {
            proof {
                vstd::arithmetic::power::lemma_pow_positive(t.deg(), level as nat);
                vstd::arithmetic::mul::lemma_mul_nonnegative(
                    offset as int,
                    vstd::arithmetic::power::pow(t.deg(), level as nat),
                );
                assert forall|k: int|
                    low as int <= k <= high as int implies clip.spec_contains_pt(
                    #[trigger] self.coords_spec()[k],
                ) by {
                    lemma_chain_in_node(*self, level as nat, offset as int, k);
                    crate::rectangle::lemma_contains_pt_le(
                        t.node_rect(level as nat, offset as int),
                        *clip,
                        self.coords_spec()[k],
                    );
                }
            }
            let ghost pre_u = *contained;
            contained.add(low, high);
            proof {
                assert forall|x: int|
                    #[trigger] covered(contained@, x) implies covered(pre_u@, x) || (0 <= x
                    <= t.size() && clip.spec_contains_pt(self.coords_spec()[x])) by {
                    if x < low as int || x > high as int {
                        assert(covered(pre_u@, x));
                    }
                }
                if pre_u@.len() == 0 {
                    // on an empty union the two endpoints are exactly
                    // the recorded pair
                    assert(low < high);
                    assert(contained.has(low) && contained.has(high));
                    assert forall|x: usize| contained.has(x) implies x == low || x
                        == high by {}
                    if contained@.len() >= 3 {
                        assert(contained@.contains(contained@[0]));
                        assert(contained@.contains(contained@[1]));
                        assert(contained@.contains(contained@[2]));
                        assert(contained.has(contained@[0]));
                        assert(contained.has(contained@[1]));
                        assert(contained.has(contained@[2]));
                        assert(contained@[0] < contained@[1] < contained@[2]);
                        assert(false);
                    }
                    let k0 = choose|k: int|
                        0 <= k < contained@.len() && contained@[k] == low;
                    let k1 = choose|k: int|
                        0 <= k < contained@.len() && contained@[k] == high;
                    assert(contained@.len() == 2);
                    assert(contained@[0] == low && contained@[1] == high);
                }
            }
        } else if level == 0 {
            proof {
                vstd::arithmetic::power::lemma_pow0(t.deg());
                vstd::arithmetic::mul::lemma_mul_basics(offset as int);
                vstd::arithmetic::mul::lemma_mul_basics(offset as int + 1);
            }
            crossing.push((low, high));
        } else {
            proof {
                t.lemma_descend(level as nat, offset as int);
            }
            let child_level = level - 1;
            let first_child = self.rtree().degree() * offset;
            let last_child = first_child + self.rtree().degree();
            let mut child = first_child;
            while child < last_child
                invariant
                    self.wf(),
                    clip.wf(),
                    t == self.rtree_spec(),
                    t.size() >= 1,
                    level >= 1,
                    child_level == level - 1,
                    level as nat <= t.height_spec(),
                    (last_child as int) <= t.nslots((level - 1) as nat),
                    child <= last_child,
                    contained.wf(),
                    crossing.wf(),
                    union_bounded(*contained, t.size()),
                    heap_bounded(*crossing, t.size()),
                    forall|x: int|
                        #[trigger] covered(contained@, x) ==> covered(old(contained)@, x) || (0
                            <= x <= t.size() && clip.spec_contains_pt(self.coords_spec()[x])),
                decreases last_child - child,
            {
                self.clip_collect(clip, child_level, child, contained, crossing);
                child = child + 1;
            }
        }
    }

    /// Clip the path by a rectangle: the pieces of the path that lie
    /// inside the rectangle, as exact rational coordinate runs, in
    /// input order, with runs of wholly-contained segments copied and
    /// crossing segments clipped.  Every returned piece holds at least
    /// one coordinate and every returned coordinate lies inside or on
    /// the rectangle; a path whose envelope the rectangle wholly
    /// contains comes back as a single piece holding all of its
    /// coordinates; a closed input whose clipped start and end meet is
    /// reconnected into one piece.
    pub fn clip_path(&self, clip_rect: Rectangle) -> (r: Vec<Vec<RatCoord>>)
        requires
            self.wf(),
            clip_rect.wf(),
            !clip_rect.is_empty_spec(),
            clip_rect.in_range(),
        ensures
            forall|p: int| 0 <= p < r@.len() ==> (#[trigger] r@[p])@.len() >= 1,
            forall|p: int, j: int|
                0 <= p < r@.len() && 0 <= j < r@[p]@.len() ==> rat_in_rect(
                    #[trigger] r@[p]@[j],
                    clip_rect,
                ),
            clip_rect.spec_contains_rect(
                span_union(self.rtree_spec().leaves(), 0, self.rtree_spec().size()),
            ) && self.rtree_spec().size() >= 1 ==> r@.len() == 1 && r@[0]@.len()
                == self.rtree_spec().size() + 1 && (forall|j: int|
                0 <= j < r@[0]@.len() ==> #[trigger] r@[0]@[j] == RatCoord::spec_lattice(
                    self.coords_spec()[j],
                )),
    {
        let ghost t = self.rtree_spec();
        let mut contained = SegmentUnion::new();
        let mut crossing = MinHeap::new();
        proof {
            t.lemma_wf_basics();
        }
        if self.rtree().is_empty() {
            let output: Vec<Vec<RatCoord>> = Vec::new();
            return output;
        }
        let height = self.rtree().height();
        proof {
            t.lemma_root_span();
        }
        proof {
            assert(t.size() >= 1);
        }
        let ghost empty_u = contained;
        proof {
            // the root slot holds exactly the envelope
            assert(t.node_rect(t.height_spec(), 0) == span_union(t.leaves(), 0, t.size()));
            lemma_pow_zero_span(t);
        }
        self.clip_collect(&clip_rect, height, 0, &mut contained, &mut crossing);
        proof {
            assert forall|x: int|
                #[trigger] covered(contained@, x) implies 0 <= x <= t.size()
                && clip_rect.spec_contains_pt(self.coords_spec()[x]) by {
                assert(count_lt(empty_u@, x) == 0);
                assert(count_le(empty_u@, x) == 0);
                assert(!covered(empty_u@, x));
            }
        }
        self.build_output(clip_rect, contained, crossing)
    }

    /// Drain the two collections in leaf order, merging runs that share
    /// an endpoint, and gather the finished pieces.
    fn build_output(
        &self,
        clip_rect: Rectangle,
        contained: SegmentUnion,
        crossing: MinHeap,
    ) -> (r: Vec<Vec<RatCoord>>)
        requires
            self.wf(),
            clip_rect.wf(),
            !clip_rect.is_empty_spec(),
            clip_rect.in_range(),
            contained.wf(),
            crossing.wf(),
            self.rtree_spec().size() >= 1,
            union_bounded(contained, self.rtree_spec().size()),
            heap_bounded(crossing, self.rtree_spec().size()),
            forall|x: int|
                #[trigger] covered(contained@, x) ==> 0 <= x <= self.rtree_spec().size()
                    && clip_rect.spec_contains_pt(self.coords_spec()[x]),
        ensures
            forall|p: int| 0 <= p < r@.len() ==> (#[trigger] r@[p])@.len() >= 1,
            forall|p: int, j: int|
                0 <= p < r@.len() && 0 <= j < r@[p]@.len() ==> rat_in_rect(
                    #[trigger] r@[p]@[j],
                    clip_rect,
                ),
            contained@.len() == 2 && contained@[0] == 0 && (contained@[1] as int)
                == self.rtree_spec().size() && crossing@.len() == 0 ==> r@.len() == 1
                && r@[0]@.len() == self.rtree_spec().size() + 1 && (forall|j: int|
                0 <= j < r@[0]@.len() ==> #[trigger] r@[0]@[j] == RatCoord::spec_lattice(
                    self.coords_spec()[j],
                )),
    {
        let ghost t = self.rtree_spec();
        let ghost whole = contained@.len() == 2 && contained@[0] == 0 && (contained@[1] as int)
            == self.rtree_spec().size() && crossing@.len() == 0;
        let mut contained = contained;
        let mut crossing = crossing;
        let mut output: Vec<Vec<RatCoord>> = Vec::new();
        let mut current: Vec<RatCoord> = Vec::new();
        let mut last_index: usize = 0;
        let mut has_last: bool = false;
        proof {
            t.lemma_wf_basics();
        }
        while contained.len() > 0 || crossing.len() > 0
            invariant
                self.wf(),
                clip_rect.wf(),
                !clip_rect.is_empty_spec(),
                clip_rect.in_range(),
                t == self.rtree_spec(),
                contained.wf(),
                crossing.wf(),
                t.size() >= 1,
                t.size() <= 0x20_0000,
                self.coords_spec().len() == t.size() + 1,
                union_bounded(contained, t.size()),
                heap_bounded(crossing, t.size()),
                forall|x: int|
                    #[trigger] covered(contained@, x) ==> 0 <= x <= t.size()
                        && clip_rect.spec_contains_pt(self.coords_spec()[x]),
                forall|p: int| 0 <= p < output@.len() ==> (#[trigger] output@[p])@.len() >= 1,
                forall|p: int, j: int|
                    0 <= p < output@.len() && 0 <= j < output@[p]@.len() ==> rat_in_rect(
                        #[trigger] output@[p]@[j],
                        clip_rect,
                    ),
                forall|j: int|
                    0 <= j < current@.len() ==> rat_in_rect(#[trigger] current@[j], clip_rect),
                whole ==> crossing@.len() == 0,
                whole && contained@.len() != 0 ==> contained@.len() == 2 && contained@[0] == 0
                    && (contained@[1] as int) == t.size() && current@.len() == 0
                    && output@.len() == 0 && !has_last,
                whole && contained@.len() == 0 ==> output@.len() == 0 && current@.len()
                    == t.size() + 1 && (forall|j: int|
                    0 <= j < current@.len() ==> #[trigger] current@[j]
                        == RatCoord::spec_lattice(self.coords_spec()[j])),
            decreases contained@.len() + crossing@.len(),
        {
            let pick_contained = if contained.len() == 0 {
                false
            } else if crossing.len() == 0 {
                true
            } else {
                let c = contained.peek();
                let x = crossing.peek();
                match (c, x) {
                    (Option::Some(cv), Option::Some(xv)) => cv < xv.0,
                    _ => true,
                }
            };
            if pick_contained && contained.len() > 0 {
                let ghost pre_u = contained;
                let pair = contained.pop();
                proof {
                    assert(union_bounded(pre_u, t.size()));
                    assert forall|x: usize| contained.has(x) implies x as int <= t.size() by {
                        let j = choose|j: int|
                            0 <= j < contained@.len() && contained@[j] == x;
                        assert(contained@[j] == pre_u@[j + 2]);
                        assert(pre_u@.contains(x));
                        assert(pre_u.has(x));
                    }
                }
                match pair {
                    Option::Some((low0, high)) => {
                        proof {
                            assert(low0 == pre_u@[0] && high == pre_u@[1]);
                            assert(pre_u@.contains(pre_u@[1]));
                            assert(pre_u.has(high));
                            assert(high as int <= t.size());
                            // everything between the popped endpoints is
                            // inside the clip rectangle
                            assert forall|k: int|
                                low0 as int <= k <= high as int implies 0 <= k <= t.size()
                                && clip_rect.spec_contains_pt(self.coords_spec()[k]) by {
                                lemma_first_pair_covered(pre_u@, k);
                            }
                            // what remains covered was covered before
                            assert forall|x: int|
                                #[trigger] covered(contained@, x) implies 0 <= x <= t.size()
                                && clip_rect.spec_contains_pt(self.coords_spec()[x]) by {
                                if x < low0 as int || x > high as int {
                                    assert(covered(pre_u@, x));
                                } else {
                                    lemma_first_pair_covered(pre_u@, x);
                                }
                            }
                        }
                        let low = if has_last && low0 == last_index {
                            low0 + 1
                        } else {
                            if current.len() > 0 {
                                output.push(current);
                                current = Vec::new();
                            }
                            low0
                        };
                        let ghost cur_pre = current@;
                        let mut k = low;
                        while k <= high
                            invariant
                                self.wf(),
                                t == self.rtree_spec(),
                                clip_rect.wf(),
                                self.coords_spec().len() == t.size() + 1,
                                t.size() <= 0x20_0000,
                                (high as int) <= t.size(),
                                low as int >= 0,
                                k <= high + 1,
                                k >= low,
                                current@.len() == cur_pre.len() + (k - low),
                                forall|j: int| 0 <= j < cur_pre.len() ==> #[trigger] current@[j]
                                    == cur_pre[j],
                                forall|j: int|
                                    cur_pre.len() <= j < current@.len()
                                        ==> #[trigger] current@[j] == RatCoord::spec_lattice(
                                        self.coords_spec()[low + j - cur_pre.len()],
                                    ),
                                forall|k2: int|
                                    low as int <= k2 <= high as int ==> clip_rect.spec_contains_pt(
                                        #[trigger] self.coords_spec()[k2],
                                    ),
                                forall|j: int|
                                    0 <= j < current@.len() ==> rat_in_rect(
                                        #[trigger] current@[j],
                                        clip_rect,
                                    ),
                            decreases high + 1 - k,
                        {
                            proof {
                                lemma_lattice_in_rect(self.coords_spec()[k as int], clip_rect);
                            }
                            current.push(RatCoord::lattice(self.coords()[k]));
                            k += 1;
                        }
                        last_index = high;
                        has_last = true;
                    },
                    Option::None => {
                        proof {
                            assert(false);
                        }
                    },
                }
            } else if crossing.len() > 0 {
                let item = crossing.pop();
                match item {
                    Option::Some((low, high)) => {
                        proof {
                            assert(self.coords_spec().len() == t.size() + 1);
                        }
                        let seg_start = self.coords()[low];
                        let seg_end = self.coords()[high];
                        let clipped = clip_rect.intersect_segment(seg_start, seg_end);
                        match clipped {
                            Option::Some((isxn_start, isxn_end)) => {
                                if !(has_last && low == last_index) {
                                    if current.len() > 0 {
                                        output.push(current);
                                        current = Vec::new();
                                    }
                                    current.push(isxn_start);
                                }
                                if !rat_eq(&isxn_end, &isxn_start) {
                                    current.push(isxn_end);
                                }
                                if isxn_end == RatCoord::lattice(seg_end) {
                                    last_index = high;
                                    has_last = true;
                                } else {
                                    has_last = false;
                                }
                            },
                            Option::None => {},
                        }
                    },
                    Option::None => {
                        proof {
                            assert(false);
                        }
                    },
                }
            }
        }
        if current.len() > 0 {
            output.push(current);
        }
        reconnect_loop(output, clip_rect)
    }
}

/// If a clipped ring came out in two pieces whose global first and
/// last coordinates coincide, splice the last piece in front of the
/// first and drop the duplicated joint.
fn reconnect_loop(output: Vec<Vec<RatCoord>>, clip_rect: Rectangle) -> (r: Vec<Vec<RatCoord>>)
    requires
        forall|p: int| 0 <= p < output@.len() ==> (#[trigger] output@[p])@.len() >= 1,
        forall|p: int, j: int|
            0 <= p < output@.len() && 0 <= j < output@[p]@.len() ==> rat_in_rect(
                #[trigger] output@[p]@[j],
                clip_rect,
            ),
    ensures
        forall|p: int| 0 <= p < r@.len() ==> (#[trigger] r@[p])@.len() >= 1,
        forall|p: int, j: int|
            0 <= p < r@.len() && 0 <= j < r@[p]@.len() ==> rat_in_rect(
                #[trigger] r@[p]@[j],
                clip_rect,
            ),
        output@.len() <= 1 ==> r == output,
{
    if output.len() <= 1 {
        return output;
    }
    let first_piece = &output[0];
    let last_piece = &output[output.len() - 1];
    let first_c = first_piece[0];
    let last_c = last_piece[last_piece.len() - 1];
    if !(first_c == last_c) {
        return output;
    }
    // merged piece: the last piece without its final coordinate, then
    // the first piece
    let mut merged: Vec<RatCoord> = Vec::new();
    let mut k: usize = 0;
    while k < last_piece.len() - 1
        invariant
            last_piece@.len() >= 1,
            last_piece@ == output@[output@.len() - 1]@,
            output@.len() >= 2,
            k <= last_piece@.len() - 1,
            forall|j: int|
                0 <= j < last_piece@.len() ==> rat_in_rect(#[trigger] last_piece@[j], clip_rect),
            forall|j: int|
                0 <= j < merged@.len() ==> rat_in_rect(#[trigger] merged@[j], clip_rect),
        decreases last_piece@.len() - 1 - k,
    {
        merged.push(last_piece[k]);
        k += 1;
    }
    let mut k2: usize = 0;
    while k2 < first_piece.len()
        invariant
            first_piece@.len() >= 1,
            first_piece@ == output@[0]@,
            output@.len() >= 2,
            k2 <= first_piece@.len(),
            merged@.len() >= k2,
            forall|j: int|
                0 <= j < first_piece@.len() ==> rat_in_rect(#[trigger] first_piece@[j], clip_rect),
            forall|j: int|
                0 <= j < merged@.len() ==> rat_in_rect(#[trigger] merged@[j], clip_rect),
        decreases first_piece@.len() - k2,
    {
        merged.push(first_piece[k2]);
        k2 += 1;
    }
    proof {
        assert(merged@.len() >= 1);
    }
    let mut result: Vec<Vec<RatCoord>> = Vec::new();
    result.push(merged);
    let mut m: usize = 1;
    while m < output.len() - 1
        invariant
            output@.len() >= 2,
            forall|p: int| 0 <= p < output@.len() ==> (#[trigger] output@[p])@.len() >= 1,
            forall|p: int| 0 <= p < result@.len() ==> (#[trigger] result@[p])@.len() >= 1,
            forall|p: int, j: int|
                0 <= p < output@.len() && 0 <= j < output@[p]@.len() ==> rat_in_rect(
                    #[trigger] output@[p]@[j],
                    clip_rect,
                ),
            forall|p: int, j: int|
                0 <= p < result@.len() && 0 <= j < result@[p]@.len() ==> rat_in_rect(
                    #[trigger] result@[p]@[j],
                    clip_rect,
                ),
            1 <= m <= output@.len() - 1,
            result@.len() >= 1,
        decreases output@.len() - 1 - m,
    {
        let piece = output[m].clone();
        proof {
            assert(piece@ == output@[m as int]@);
        }
        result.push(piece);
        m += 1;
    }
    result
}

} // verus!

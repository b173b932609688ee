use vstd::prelude::*;

use crate::coordinate::Coordinate;

verus! {

/// An axis-aligned rectangle with a distinguished empty value.
///
/// The empty rectangle is the identity of `merge`/`expand`, intersects
/// nothing and contains nothing; it fills the padding slots of a packed
/// tree.  An empty rectangle always carries zeroed bounds so that the
/// derived structural equality agrees with the semantic one ("all empty
/// rectangles are equal").
#[derive(Clone, Copy, PartialEq, Eq, Structural, Debug)]
pub struct Rectangle {
    pub empty: bool,
    pub x_min: i64,
    pub y_min: i64,
    pub x_max: i64,
    pub y_max: i64,
}

impl Rectangle {
    /// Well-formed: an empty rectangle is the canonical zeroed one and a
    /// non-empty rectangle has ordered bounds.
    pub open spec fn wf(self) -> bool {
        if self.empty {
            self.x_min == 0 && self.y_min == 0 && self.x_max == 0 && self.y_max == 0
        } else {
            self.x_min <= self.x_max && self.y_min <= self.y_max
        }
    }

    pub open spec fn is_empty_spec(self) -> bool {
        self.empty
    }

    /// All four bounds within the accepted coordinate range.
    pub open spec fn in_range(self) -> bool {
        &&& -crate::coordinate::MAX_COORD <= self.x_min <= crate::coordinate::MAX_COORD
        &&& -crate::coordinate::MAX_COORD <= self.y_min <= crate::coordinate::MAX_COORD
        &&& -crate::coordinate::MAX_COORD <= self.x_max <= crate::coordinate::MAX_COORD
        &&& -crate::coordinate::MAX_COORD <= self.y_max <= crate::coordinate::MAX_COORD
    }

    pub open spec fn xmin(self) -> int {
        self.x_min as int
    }

    pub open spec fn ymin(self) -> int {
        self.y_min as int
    }

    pub open spec fn xmax(self) -> int {
        self.x_max as int
    }

    pub open spec fn ymax(self) -> int {
        self.y_max as int
    }

    /// The canonical empty rectangle.
    pub open spec fn spec_empty() -> Rectangle {
        Rectangle { empty: true, x_min: 0, y_min: 0, x_max: 0, y_max: 0 }
    }

    /// The bounding box of the two points p and q.
    pub open spec fn spec_new(p: Coordinate, q: Coordinate) -> Rectangle {
        Rectangle {
            empty: false,
            x_min: if p.x <= q.x { p.x } else { q.x },
            y_min: if p.y <= q.y { p.y } else { q.y },
            x_max: if p.x <= q.x { q.x } else { p.x },
            y_max: if p.y <= q.y { q.y } else { p.y },
        }
    }

    /// Closed-interval overlap on both axes; empty intersects nothing.
    pub open spec fn spec_intersects(self, other: Rectangle) -> bool {
        &&& !self.empty
        &&& !other.empty
        &&& self.xmin() <= other.xmax()
        &&& self.xmax() >= other.xmin()
        &&& self.ymin() <= other.ymax()
        &&& self.ymax() >= other.ymin()
    }

    /// Closed-interval membership; the empty rectangle contains no point.
    pub open spec fn spec_contains_pt(self, p: Coordinate) -> bool {
        &&& !self.empty
        &&& self.xmin() <= p.x <= self.xmax()
        &&& self.ymin() <= p.y <= self.ymax()
    }

    /// Componentwise containment; neither side may be empty.
    pub open spec fn spec_contains_rect(self, other: Rectangle) -> bool {
        &&& !self.empty
        &&& !other.empty
        &&& self.xmin() <= other.xmin()
        &&& self.xmax() >= other.xmax()
        &&& self.ymin() <= other.ymin()
        &&& self.ymax() >= other.ymax()
    }

    /// `self` is covered by `other`: empty is below everything.
    pub open spec fn le(self, other: Rectangle) -> bool {
        self.empty || other.spec_contains_rect(self)
    }

    /// Componentwise union with empty as identity.
    pub open spec fn spec_merge(self, other: Rectangle) -> Rectangle {
        if self.empty {
            other
        } else if other.empty {
            self
        } else {
            Rectangle {
                empty: false,
                x_min: if self.x_min <= other.x_min { self.x_min } else { other.x_min },
                y_min: if self.y_min <= other.y_min { self.y_min } else { other.y_min },
                x_max: if self.x_max >= other.x_max { self.x_max } else { other.x_max },
                y_max: if self.y_max >= other.y_max { self.y_max } else { other.y_max },
            }
        }
    }

    pub fn new(p: Coordinate, q: Coordinate) -> (r: Rectangle)
        ensures
            r == Rectangle::spec_new(p, q),
            r.wf(),
            !r.is_empty_spec(),
            r.spec_contains_pt(p),
            r.spec_contains_pt(q),
    {
        Rectangle {
            empty: false,
            x_min: if p.x <= q.x { p.x } else { q.x },
            y_min: if p.y <= q.y { p.y } else { q.y },
            x_max: if p.x <= q.x { q.x } else { p.x },
            y_max: if p.y <= q.y { q.y } else { p.y },
        }
    }

    pub fn new_empty() -> (r: Rectangle)
        ensures
            r == Rectangle::spec_empty(),
            r.wf(),
    {
        Rectangle { empty: true, x_min: 0, y_min: 0, x_max: 0, y_max: 0 }
    }

    pub fn is_empty(&self) -> (r: bool)
        ensures
            r == self.is_empty_spec(),
    {
        self.empty
    }

    pub fn x_min(&self) -> (r: i64)
        ensures
            r as int == self.xmin(),
    {
        self.x_min
    }

    pub fn y_min(&self) -> (r: i64)
        ensures
            r as int == self.ymin(),
    {
        self.y_min
    }

    pub fn x_max(&self) -> (r: i64)
        ensures
            r as int == self.xmax(),
    {
        self.x_max
    }

    pub fn y_max(&self) -> (r: i64)
        ensures
            r as int == self.ymax(),
    {
        self.y_max
    }

    pub fn intersects(&self, other: &Rectangle) -> (r: bool)
        ensures
            r == self.spec_intersects(*other),
    {
        !self.empty && !other.empty && self.x_min <= other.x_max && self.x_max >= other.x_min
            && self.y_min <= other.y_max && self.y_max >= other.y_min
    }

    pub fn contains_pt(&self, p: Coordinate) -> (r: bool)
        ensures
            r == self.spec_contains_pt(p),
    {
        !self.empty && self.x_min <= p.x && p.x <= self.x_max && self.y_min <= p.y && p.y
            <= self.y_max
    }

    pub fn contains_rect(&self, other: &Rectangle) -> (r: bool)
        ensures
            r == self.spec_contains_rect(*other),
    {
        !self.empty && !other.empty && self.x_min <= other.x_min && self.x_max >= other.x_max
            && self.y_min <= other.y_min && self.y_max >= other.y_max
    }

    pub fn merge(&self, other: &Rectangle) -> (r: Rectangle)
        requires
            self.wf(),
            other.wf(),
        ensures
            r == self.spec_merge(*other),
            r.wf(),
    {
        if self.empty {
            *other
        } else if other.empty {
            *self
        } else {
            Rectangle {
                empty: false,
                x_min: if self.x_min <= other.x_min { self.x_min } else { other.x_min },
                y_min: if self.y_min <= other.y_min { self.y_min } else { other.y_min },
                x_max: if self.x_max >= other.x_max { self.x_max } else { other.x_max },
                y_max: if self.y_max >= other.y_max { self.y_max } else { other.y_max },
            }
        }
    }

    /// Componentwise union in place, absorbing empty.
    pub fn expand(&mut self, other: &Rectangle)
        requires
            old(self).wf(),
            other.wf(),
        ensures
            *final(self) == old(self).spec_merge(*other),
            final(self).wf(),
    {
        let merged = self.merge(other);
        *self = merged;
    }
}

/// Union laws used when reasoning about packed trees.
pub proof fn lemma_merge_comm(a: Rectangle, b: Rectangle)
    requires
        a.wf(),
        b.wf(),
    ensures
        a.spec_merge(b) == b.spec_merge(a),
{
}

pub proof fn lemma_merge_assoc(a: Rectangle, b: Rectangle, c: Rectangle)
    requires
        a.wf(),
        b.wf(),
        c.wf(),
    ensures
        a.spec_merge(b).spec_merge(c) == a.spec_merge(b.spec_merge(c)),
{
}

pub proof fn lemma_merge_le(a: Rectangle, b: Rectangle)
    requires
        a.wf(),
        b.wf(),
    ensures
        a.le(a.spec_merge(b)),
        b.le(a.spec_merge(b)),
        a.spec_merge(b).wf(),
{
}

/// Absorption: merging something already covered changes nothing.
pub proof fn lemma_merge_absorb(a: Rectangle, b: Rectangle)
    requires
        a.wf(),
        b.wf(),
        b.le(a),
    ensures
        a.spec_merge(b) == a,
{
}

/// `le` is transitive.
pub proof fn lemma_le_trans(a: Rectangle, b: Rectangle, c: Rectangle)
    requires
        a.le(b),
        b.le(c),
    ensures
        a.le(c),
{
}

/// Anything intersecting a covered rectangle intersects the cover.
pub proof fn lemma_intersects_le(a: Rectangle, b: Rectangle, q: Rectangle)
    requires
        a.le(b),
        a.spec_intersects(q),
    ensures
        b.spec_intersects(q),
{
}

/// A point inside a covered rectangle is inside the cover.
pub proof fn lemma_contains_pt_le(a: Rectangle, b: Rectangle, p: Coordinate)
    requires
        a.le(b),
        a.spec_contains_pt(p),
    ensures
        b.spec_contains_pt(p),
{
}

/// Two intersecting rectangles make their covers intersect.
pub proof fn lemma_intersects_le_both(a: Rectangle, b: Rectangle, ca: Rectangle, cb: Rectangle)
    requires
        a.le(ca),
        b.le(cb),
        a.spec_intersects(b),
    ensures
        ca.spec_intersects(cb),
{
}

} // verus!

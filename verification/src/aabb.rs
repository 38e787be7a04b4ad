//! Axis-aligned bounding boxes over integer coordinates.
//!
//! Callers describe a box by its center and half-extent. Inside the index the
//! same box is kept as a closed interval per axis, so that the union of two
//! boxes is exact. All coordinates are bounded by `COORD_LIMIT`, which keeps
//! every sum and difference inside `i64`.

use vstd::prelude::*;

use crate::COORD_LIMIT;

verus! {

/// A box given by center and half-extent, the caller-facing form.
#[derive(Debug, Clone, Copy, PartialEq, Eq, Structural)]
pub struct Aabb {
    /// Center, x axis.
    pub cx: i64,
    /// Center, y axis.
    pub cy: i64,
    /// Center, z axis.
    pub cz: i64,
    /// Half-extent, x axis.
    pub hx: i64,
    /// Half-extent, y axis.
    pub hy: i64,
    /// Half-extent, z axis.
    pub hz: i64,
}

/// A box given by its corners: a closed interval per axis.
#[derive(Debug, Clone, Copy, PartialEq, Eq, Structural)]
pub struct Interval3 {
    /// Low corner, x axis.
    pub lox: i64,
    /// High corner, x axis.
    pub hix: i64,
    /// Low corner, y axis.
    pub loy: i64,
    /// High corner, y axis.
    pub hiy: i64,
    /// Low corner, z axis.
    pub loz: i64,
    /// High corner, z axis.
    pub hiz: i64,
}

impl Aabb {
    /// A valid box: nonnegative half-extents, and every coordinate within
    /// the global limit.
    pub open spec fn wf(self) -> bool {
        &&& -COORD_LIMIT <= self.cx <= COORD_LIMIT
        &&& -COORD_LIMIT <= self.cy <= COORD_LIMIT
        &&& -COORD_LIMIT <= self.cz <= COORD_LIMIT
        &&& 0 <= self.hx <= COORD_LIMIT
        &&& 0 <= self.hy <= COORD_LIMIT
        &&& 0 <= self.hz <= COORD_LIMIT
    }

    /// The interval the box covers, corner to corner.
    pub open spec fn spec_corners(self) -> Interval3 {
        Interval3 {
            lox: (self.cx - self.hx) as i64,
            hix: (self.cx + self.hx) as i64,
            loy: (self.cy - self.hy) as i64,
            hiy: (self.cy + self.hy) as i64,
            loz: (self.cz - self.hz) as i64,
            hiz: (self.cz + self.hz) as i64,
        }
    }

    /// Build a box from its center and half-extent.
    pub fn new(cx: i64, cy: i64, cz: i64, hx: i64, hy: i64, hz: i64) -> (b: Aabb)
        ensures
            b == (Aabb { cx, cy, cz, hx, hy, hz }),
    {
        Aabb { cx, cy, cz, hx, hy, hz }
    }

    /// The corner form of the box.
    pub fn corners(&self) -> (r: Interval3)
        requires
            self.wf(),
        ensures
            r == self.spec_corners(),
    {
        Interval3 {
            lox: self.cx - self.hx,
            hix: self.cx + self.hx,
            loy: self.cy - self.hy,
            hiy: self.cy + self.hy,
            loz: self.cz - self.hz,
            hiz: self.cz + self.hz,
        }
    }
}

impl Interval3 {
    /// A valid interval box: ordered corners within twice the global limit.
    pub open spec fn wf(self) -> bool {
        &&& -2 * COORD_LIMIT <= self.lox <= self.hix <= 2 * COORD_LIMIT
        &&& -2 * COORD_LIMIT <= self.loy <= self.hiy <= 2 * COORD_LIMIT
        &&& -2 * COORD_LIMIT <= self.loz <= self.hiz <= 2 * COORD_LIMIT
    }

    /// True when the two boxes share at least one point (closed intervals
    /// on every axis).
    pub open spec fn spec_overlaps(self, other: Interval3) -> bool {
        &&& self.lox <= other.hix && other.lox <= self.hix
        &&& self.loy <= other.hiy && other.loy <= self.hiy
        &&& self.loz <= other.hiz && other.loz <= self.hiz
    }

    /// True when `self` covers all of `inner`.
    pub open spec fn spec_contains(self, inner: Interval3) -> bool {
        &&& self.lox <= inner.lox && inner.hix <= self.hix
        &&& self.loy <= inner.loy && inner.hiy <= self.hiy
        &&& self.loz <= inner.loz && inner.hiz <= self.hiz
    }

    /// The tight union of the two boxes: the smallest interval box covering
    /// both.
    pub open spec fn spec_union(self, other: Interval3) -> Interval3 {
        Interval3 {
            lox: if self.lox <= other.lox { self.lox } else { other.lox },
            hix: if self.hix >= other.hix { self.hix } else { other.hix },
            loy: if self.loy <= other.loy { self.loy } else { other.loy },
            hiy: if self.hiy >= other.hiy { self.hiy } else { other.hiy },
            loz: if self.loz <= other.loz { self.loz } else { other.loz },
            hiz: if self.hiz >= other.hiz { self.hiz } else { other.hiz },
        }
    }

    /// Overlap test between two interval boxes.
    pub fn overlaps(&self, other: &Interval3) -> (r: bool)
        ensures
            r == self.spec_overlaps(*other),
    {
        self.lox <= other.hix && other.lox <= self.hix && self.loy <= other.hiy && other.loy
            <= self.hiy && self.loz <= other.hiz && other.loz <= self.hiz
    }

    /// The tight union of two interval boxes.
    pub fn union(&self, other: &Interval3) -> (r: Interval3)
        ensures
            r == self.spec_union(*other),
    {
        Interval3 {
            lox: if self.lox <= other.lox { self.lox } else { other.lox },
            hix: if self.hix >= other.hix { self.hix } else { other.hix },
            loy: if self.loy <= other.loy { self.loy } else { other.loy },
            hiy: if self.hiy >= other.hiy { self.hiy } else { other.hiy },
            loz: if self.loz <= other.loz { self.loz } else { other.loz },
            hiz: if self.hiz >= other.hiz { self.hiz } else { other.hiz },
        }
    }
}

/// The union covers both of its arguments.
pub proof fn lemma_union_contains(a: Interval3, b: Interval3)
    ensures
        a.spec_union(b).spec_contains(a),
        a.spec_union(b).spec_contains(b),
        a.wf() && b.wf() ==> a.spec_union(b).wf(),
{
}

/// Anything overlapping a contained box overlaps the container.
pub proof fn lemma_overlap_monotone(q: Interval3, inner: Interval3, outer: Interval3)
    requires
        outer.spec_contains(inner),
        q.spec_overlaps(inner),
    ensures
        q.spec_overlaps(outer),
{
}

} // verus!

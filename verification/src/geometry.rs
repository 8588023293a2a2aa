//! 2D points in fixed-point sensor coordinates, and the squared-distance
//! comparison that the clustering engine builds on.
//!
//! Coordinates are integers in sensor units (for example, tenths of a
//! millimetre); the acquisition layer converts whatever the sensor reports
//! into this scale before handing points to the library. Keeping the
//! coordinates within [`COORD_LIMIT`] makes every squared distance fit in
//! `i64` with room to spare.

use vstd::prelude::*;

verus! {

/// Largest coordinate magnitude the library accepts. With both coordinates
/// bounded by this, a squared Euclidean distance is at most
/// 2 * (2 * COORD_LIMIT)^2 = 8 * 10^18 < i64::MAX.
pub const COORD_LIMIT: i64 = 1_000_000_000;

/// One Cartesian point of a scan.
#[derive(Clone, Copy, PartialEq, Eq, Structural, Debug)]
pub struct Point {
    pub x: i64,
    pub y: i64,
}

impl Point {
    /// Both coordinates lie within the accepted range.
    pub open spec fn wf(self) -> bool {
        &&& -COORD_LIMIT <= self.x <= COORD_LIMIT
        &&& -COORD_LIMIT <= self.y <= COORD_LIMIT
    }

    /// Builds a point, rejecting coordinates outside the accepted range.
    pub fn new(x: i64, y: i64) -> (r: Option<Point>)
        ensures
            r matches Some(p) ==> p.wf() && p.x == x && p.y == y,
            r is None <==> !(Point { x, y }).wf(),
    {
        if -COORD_LIMIT <= x && x <= COORD_LIMIT && -COORD_LIMIT <= y && y <= COORD_LIMIT {
            Some(Point { x, y })
        } else {
            None
        }
    }
}

/// Every point of the sequence is well formed.
pub open spec fn wf_points(ps: Seq<Point>) -> bool {
    forall|i: int| 0 <= i < ps.len() ==> #[trigger] ps[i].wf()
}

/// Squared Euclidean distance between two points, as a mathematical integer.
pub open spec fn sq_dist(p: Point, q: Point) -> int {
    (p.x - q.x) * (p.x - q.x) + (p.y - q.y) * (p.y - q.y)
}

/// Two points are within the clustering radius: their squared distance is at
/// most the squared tolerance.
pub open spec fn close(p: Point, q: Point, tol_sq: int) -> bool {
    sq_dist(p, q) <= tol_sq
}

/// A squared difference of two bounded coordinates stays within fixed bounds.
proof fn lemma_sq_diff_bound(a: i64, b: i64)
    requires
        -COORD_LIMIT <= a <= COORD_LIMIT,
        -COORD_LIMIT <= b <= COORD_LIMIT,
    ensures
        0 <= (a - b) * (a - b) <= 4_000_000_000_000_000_000,
{
    let d = a - b;
    assert(-2 * COORD_LIMIT <= d <= 2 * COORD_LIMIT);
    assert(0 <= d * d <= 4_000_000_000_000_000_000) by (nonlinear_arith)
        requires
            -2_000_000_000 <= d <= 2_000_000_000,
    ;
}

/// Decides whether two points are within the clustering radius.
pub fn points_close(p: &Point, q: &Point, tol_sq: i64) -> (r: bool)
    requires
        p.wf(),
        q.wf(),
    ensures
        r == close(*p, *q, tol_sq as int),
{
    proof {
        lemma_sq_diff_bound(p.x, q.x);
        lemma_sq_diff_bound(p.y, q.y);
    }
    let dx: i64 = p.x - q.x;
    let dy: i64 = p.y - q.y;
    dx * dx + dy * dy <= tol_sq
}

/// A point is always within the radius of itself, for any positive tolerance.
pub proof fn lemma_close_self(p: Point, tol_sq: int)
    requires
        tol_sq >= 0,
    ensures
        close(p, p, tol_sq),
{
}

/// Closeness is symmetric: the squared distance does not depend on the order
/// of the two points.
pub proof fn lemma_close_symmetric(p: Point, q: Point, tol_sq: int)
    ensures
        close(p, q, tol_sq) == close(q, p, tol_sq),
{
    assert((p.x - q.x) * (p.x - q.x) == (q.x - p.x) * (q.x - p.x)) by (nonlinear_arith);
    assert((p.y - q.y) * (p.y - q.y) == (q.y - p.y) * (q.y - p.y)) by (nonlinear_arith);
}

/// Growing the radius keeps every pair that was already close.
pub proof fn lemma_close_monotone(p: Point, q: Point, tol1: int, tol2: int)
    requires
        tol1 <= tol2,
        close(p, q, tol1),
    ensures
        close(p, q, tol2),
{
}

} // verus!

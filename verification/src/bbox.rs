//! Axis-aligned bounding boxes: the geometric summary of one cluster.
//!
//! A box is stored as its extents. The reported summary values are derived
//! from them: the centre is the midpoint of the extents (exposed doubled, so
//! that it stays an exact integer), width and height are the extent spans,
//! and the orientation is always zero — rotation is not computed; the field
//! exists for wire compatibility only.

use vstd::prelude::*;

use crate::geometry::{wf_points, Point, COORD_LIMIT};

verus! {

/// Axis-aligned extents of a non-empty point set.
#[derive(Clone, Copy, PartialEq, Eq, Structural, Debug)]
pub struct BoundingBox {
    pub min_x: i64,
    pub max_x: i64,
    pub min_y: i64,
    pub max_y: i64,
}

/// The smallest x among the first `k` points (`k` at least 1).
pub open spec fn min_x_upto(s: Seq<Point>, k: int) -> i64
    decreases k,
{
    if k <= 1 {
        s[0].x
    } else {
        let m = min_x_upto(s, k - 1);
        if s[k - 1].x < m {
            s[k - 1].x
        } else {
            m
        }
    }
}

/// The largest x among the first `k` points (`k` at least 1).
pub open spec fn max_x_upto(s: Seq<Point>, k: int) -> i64
    decreases k,
{
    if k <= 1 {
        s[0].x
    } else {
        let m = max_x_upto(s, k - 1);
        if s[k - 1].x > m {
            s[k - 1].x
        } else {
            m
        }
    }
}

/// The smallest y among the first `k` points (`k` at least 1).
pub open spec fn min_y_upto(s: Seq<Point>, k: int) -> i64
    decreases k,
{
    if k <= 1 {
        s[0].y
    } else {
        let m = min_y_upto(s, k - 1);
        if s[k - 1].y < m {
            s[k - 1].y
        } else {
            m
        }
    }
}

/// The largest y among the first `k` points (`k` at least 1).
pub open spec fn max_y_upto(s: Seq<Point>, k: int) -> i64
    decreases k,
{
    if k <= 1 {
        s[0].y
    } else {
        let m = max_y_upto(s, k - 1);
        if s[k - 1].y > m {
            s[k - 1].y
        } else {
            m
        }
    }
}

/// The bounding box of a non-empty point sequence.
pub open spec fn box_of(s: Seq<Point>) -> BoundingBox {
    BoundingBox {
        min_x: min_x_upto(s, s.len() as int),
        max_x: max_x_upto(s, s.len() as int),
        min_y: min_y_upto(s, s.len() as int),
        max_y: max_y_upto(s, s.len() as int),
    }
}

impl BoundingBox {
    /// The extents are ordered and within the coordinate range, so every
    /// derived summary value fits in `i64`.
    pub open spec fn wf(self) -> bool {
        &&& -COORD_LIMIT <= self.min_x <= self.max_x <= COORD_LIMIT
        &&& -COORD_LIMIT <= self.min_y <= self.max_y <= COORD_LIMIT
    }

    /// Twice the x coordinate of the centre.
    pub open spec fn spec_center_x2(self) -> int {
        self.min_x + self.max_x
    }

    /// Twice the y coordinate of the centre.
    pub open spec fn spec_center_y2(self) -> int {
        self.min_y + self.max_y
    }

    /// The span of the box along x.
    pub open spec fn spec_width(self) -> int {
        self.max_x - self.min_x
    }

    /// The span of the box along y.
    pub open spec fn spec_height(self) -> int {
        self.max_y - self.min_y
    }

    /// Twice the centre's x coordinate; the centre itself is this halved.
    pub fn center_x2(&self) -> (r: i64)
        requires
            self.wf(),
        ensures
            r as int == self.spec_center_x2(),
    {
        self.min_x + self.max_x
    }

    /// Twice the centre's y coordinate; the centre itself is this halved.
    pub fn center_y2(&self) -> (r: i64)
        requires
            self.wf(),
        ensures
            r as int == self.spec_center_y2(),
    {
        self.min_y + self.max_y
    }

    /// Width of the box: the x extent span.
    pub fn width(&self) -> (r: i64)
        requires
            self.wf(),
        ensures
            r as int == self.spec_width(),
            r >= 0,
    {
        self.max_x - self.min_x
    }

    /// Height of the box: the y extent span.
    pub fn height(&self) -> (r: i64)
        requires
            self.wf(),
        ensures
            r as int == self.spec_height(),
            r >= 0,
    {
        self.max_y - self.min_y
    }

    /// Orientation of the box: always zero, rotation is never computed.
    pub fn theta(&self) -> (r: i64)
        ensures
            r == 0,
    {
        0
    }
}

/// The extents over a prefix bound every point of the prefix, and stay
/// within the coordinate range of a well-formed sequence.
proof fn lemma_extents_contain(s: Seq<Point>, k: int)
    requires
        wf_points(s),
        1 <= k <= s.len(),
    ensures
        forall|i: int|
            0 <= i < k ==> min_x_upto(s, k) <= #[trigger] s[i].x <= max_x_upto(s, k),
        forall|i: int|
            0 <= i < k ==> min_y_upto(s, k) <= #[trigger] s[i].y <= max_y_upto(s, k),
        -COORD_LIMIT <= min_x_upto(s, k) <= max_x_upto(s, k) <= COORD_LIMIT,
        -COORD_LIMIT <= min_y_upto(s, k) <= max_y_upto(s, k) <= COORD_LIMIT,
    decreases k,
{
    if k > 1 {
        lemma_extents_contain(s, k - 1);
        assert(s[k - 1].wf());
    } else {
        assert(s[0].wf());
    }
}

/// Computes the bounding box of a non-empty cluster: the extents of its
/// points, exactly.
pub fn bounding_box(cluster: &Vec<Point>) -> (b: BoundingBox)
    requires
        cluster@.len() >= 1,
        wf_points(cluster@),
    ensures
        b == box_of(cluster@),
        b.wf(),
{
    let n = cluster.len();
    let first = cluster[0];
    let mut min_x = first.x;
    let mut max_x = first.x;
    let mut min_y = first.y;
    let mut max_y = first.y;
    let mut i: usize = 1;
    while i < n
        invariant
            n == cluster@.len(),
            1 <= i <= n,
            min_x == min_x_upto(cluster@, i as int),
            max_x == max_x_upto(cluster@, i as int),
            min_y == min_y_upto(cluster@, i as int),
            max_y == max_y_upto(cluster@, i as int),
        decreases n - i,
    {
        let p = cluster[i];
        if p.x < min_x {
            min_x = p.x;
        }
        if p.x > max_x {
            max_x = p.x;
        }
        if p.y < min_y {
            min_y = p.y;
        }
        if p.y > max_y {
            max_y = p.y;
        }
        i = i + 1;
    }
    proof {
        lemma_extents_contain(cluster@, n as int);
    }
    BoundingBox { min_x, max_x, min_y, max_y }
}

/// Bounding-box containment: every point of the cluster lies within the box,
/// both as raw extents and in centre-and-span form — with the centre doubled
/// to stay exact, `center*2 - span <= 2*coordinate <= center*2 + span` on
/// each axis.
pub proof fn lemma_box_contains_cluster(s: Seq<Point>, i: int)
    requires
        wf_points(s),
        s.len() >= 1,
        0 <= i < s.len(),
    ensures
        box_of(s).min_x <= s[i].x <= box_of(s).max_x,
        box_of(s).min_y <= s[i].y <= box_of(s).max_y,
        box_of(s).spec_center_x2() - box_of(s).spec_width() <= 2 * s[i].x <= box_of(
            s,
        ).spec_center_x2() + box_of(s).spec_width(),
        box_of(s).spec_center_y2() - box_of(s).spec_height() <= 2 * s[i].y <= box_of(
            s,
        ).spec_center_y2() + box_of(s).spec_height(),
{
    lemma_extents_contain(s, s.len() as int);
}

} // verus!

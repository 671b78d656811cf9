//! Points and axis-aligned boxes of the grid that a quadtree lives on.
//!
//! A box owns its minimum corner and excludes its maximum corner, on both
//! axes. Boxes cut this way at a common point never share a grid point, which
//! is what lets a quadtree send every point to exactly one quadrant.

use vstd::prelude::*;
use vstd::std_specs::convert::FromSpecImpl;

verus! {

/// A point of the grid.
#[derive(Debug, Copy, Clone, PartialEq, Eq, Structural)]
pub struct Vec2 {
    pub x: i64,
    pub y: i64,
}

impl Default for Vec2 {
    /// The origin.
    fn default() -> (v: Self)
        ensures
            v == (Vec2 { x: 0, y: 0 }),
    {
        Vec2 { x: 0, y: 0 }
    }
}

impl From<[i64; 2]> for Vec2 {
    /// The point with the given `x` and `y`, in that order.
    fn from(coords: [i64; 2]) -> (v: Self) {
        Vec2 { x: coords[0], y: coords[1] }
    }
}

impl FromSpecImpl<[i64; 2]> for Vec2 {
    open spec fn obeys_from_spec() -> bool {
        true
    }

    open spec fn from_spec(coords: [i64; 2]) -> Self {
        Vec2 { x: coords@[0], y: coords@[1] }
    }
}

/// A closed interval of one axis, as `(low, high)`.
pub struct Range(pub (i64, i64));

impl Range {
    /// The two intervals have a coordinate in common, their ends included.
    pub open spec fn spec_intersects(&self, other: &Range) -> bool {
        self.0.1 >= other.0.0 && other.0.1 >= self.0.0
    }

    /// Returns true if this range intersects the given range.
    #[verifier::when_used_as_spec(spec_intersects)]
    pub fn intersects(&self, other: &Range) -> (b: bool)
        ensures
            b == self.spec_intersects(other),
    {
        self.0.1 >= other.0.0 && other.0.1 >= self.0.0
    }
}

/// The quadrant around `pivot` that `p` falls in: 0 for south-west, 1 for
/// south-east, 2 for north-east, 3 for north-west. A point level with the
/// pivot on an axis counts to the east, or to the north.
pub open spec fn quadrant_of(pivot: Vec2, p: Vec2) -> int {
    if p.x < pivot.x {
        if p.y < pivot.y {
            0
        } else {
            3
        }
    } else {
        if p.y < pivot.y {
            1
        } else {
            2
        }
    }
}

/// A two-dimensional axis-aligned bounding box.
#[derive(Debug, Copy, Clone, PartialEq, Eq, Structural)]
pub struct BBox2D {
    pub min: Vec2,
    pub max: Vec2,
}

impl Default for BBox2D {
    /// The empty box at the origin.
    fn default() -> (b: Self)
        ensures
            b == (BBox2D { min: Vec2 { x: 0, y: 0 }, max: Vec2 { x: 0, y: 0 } }),
    {
        BBox2D { min: Vec2::default(), max: Vec2::default() }
    }
}

impl BBox2D {
    /// The point lies in the box: at or beyond the minimum and short of the
    /// maximum, on both axes.
    pub open spec fn spec_contains(&self, p: &Vec2) -> bool {
        &&& self.min.x <= p.x < self.max.x
        &&& self.min.y <= p.y < self.max.y
    }

    /// The boxes overlap or touch: on both axes their closed intervals have a
    /// coordinate in common.
    pub open spec fn spec_intersects(&self, other: &BBox2D) -> bool {
        &&& self.max.x >= other.min.x && other.max.x >= self.min.x
        &&& self.max.y >= other.min.y && other.max.y >= self.min.y
    }

    /// The grid point halfway between the corners, rounded down on both axes.
    pub open spec fn spec_mid(&self) -> Vec2 {
        Vec2 {
            x: ((self.min.x + self.max.x) / 2) as i64,
            y: ((self.min.y + self.max.y) / 2) as i64,
        }
    }

    /// Quadrant `k` of the box cut at `mid`: south-west, south-east,
    /// north-east, north-west for `k` from 0 to 3.
    pub open spec fn quadrant(&self, mid: Vec2, k: int) -> BBox2D {
        if k == 0 {
            BBox2D { min: self.min, max: mid }
        } else if k == 1 {
            BBox2D {
                min: Vec2 { x: mid.x, y: self.min.y },
                max: Vec2 { x: self.max.x, y: mid.y },
            }
        } else if k == 2 {
            BBox2D { min: mid, max: self.max }
        } else {
            BBox2D {
                min: Vec2 { x: self.min.x, y: mid.y },
                max: Vec2 { x: mid.x, y: self.max.y },
            }
        }
    }

    /// Returns true if the box contains the given point.
    #[verifier::when_used_as_spec(spec_contains)]
    pub fn contains(&self, p: &Vec2) -> (b: bool)
        ensures
            b == self.spec_contains(p),
    {
        self.min.x <= p.x && self.min.y <= p.y && p.x < self.max.x && p.y < self.max.y
    }

    /// Returns true if the box intersects the given box.
    #[verifier::when_used_as_spec(spec_intersects)]
    pub fn intersects(&self, other: &BBox2D) -> (b: bool)
        ensures
            b == self.spec_intersects(other),
    {
        self.xrange().intersects(&other.xrange()) && self.yrange().intersects(&other.yrange())
    }

    /// Returns the midpoint of the box. A box that holds any point holds its
    /// midpoint.
    #[verifier::when_used_as_spec(spec_mid)]
    pub fn mid(&self) -> (m: Vec2)
        ensures
            m == self.spec_mid(),
            self.min.x < self.max.x && self.min.y < self.max.y ==> self.spec_contains(&m),
    {
        Vec2 { x: midpoint(self.min.x, self.max.x), y: midpoint(self.min.y, self.max.y) }
    }

    /// Subdivides the box into its four quadrants around `mid`, in the order
    /// south-west, south-east, north-east, north-west.
    pub fn subdivide(&self, mid: &Vec2) -> (quads: [BBox2D; 4])
        ensures
            forall|k: int| 0 <= k < 4 ==> #[trigger] quads@[k] == self.quadrant(*mid, k),
    {
        [
            BBox2D { min: self.min, max: *mid },
            BBox2D {
                min: Vec2 { x: mid.x, y: self.min.y },
                max: Vec2 { x: self.max.x, y: mid.y },
            },
            BBox2D { min: *mid, max: self.max },
            BBox2D {
                min: Vec2 { x: self.min.x, y: mid.y },
                max: Vec2 { x: mid.x, y: self.max.y },
            },
        ]
    }

    /// Returns the range of x-values of the box.
    fn xrange(&self) -> (r: Range)
        ensures
            r.0 == (self.min.x, self.max.x),
    {
        Range((self.min.x, self.max.x))
    }

    /// Returns the range of y-values of the box.
    fn yrange(&self) -> (r: Range)
        ensures
            r.0 == (self.min.y, self.max.y),
    {
        Range((self.min.y, self.max.y))
    }
}

/// The coordinate halfway between `a` and `b`, rounded down.
fn midpoint(a: i64, b: i64) -> (m: i64)
    ensures
        m == (a + b) / 2,
{
    let sum: i128 = a as i128 + b as i128;
    let half: i128 = sum / 2;
    let floor: i128 = if sum < 0 && sum % 2 != 0 {
        half - 1
    } else {
        half
    };
    floor as i64
}

/// The quadrants of a box, cut at a point of the box, share it out: a point
/// lies in quadrant `k` exactly if it lies in the box and falls in quadrant
/// `k` around the cut. So every point of the box lies in one quadrant only.
pub proof fn lemma_quadrants_partition(bbox: BBox2D, pivot: Vec2, p: Vec2, k: int)
    requires
        bbox.contains(&pivot),
        0 <= k < 4,
    ensures
        bbox.quadrant(pivot, k).contains(&p) <==> bbox.contains(&p) && quadrant_of(pivot, p) == k,
{
}

/// Two boxes that hold a common point intersect.
pub proof fn lemma_common_point_intersects(a: BBox2D, b: BBox2D, p: Vec2)
    requires
        a.contains(&p),
        b.contains(&p),
    ensures
        a.intersects(&b),
{
}

} // verus!

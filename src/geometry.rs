//! Points, triangles and the integer grid they live on.

use vstd::prelude::*;

verus! {

/// Grid units per model unit (millimetre): one grid unit is a nanometre.
pub const GRID_UNITS_PER_MM: i64 = 1_000_000;

/// Tolerance, in grid units, within which a vertex counts as lying on a plane.
pub const EPSILON: i64 = 1;

/// Distance, in grid units, below which two points collapse to one quantised
/// key. Keys are the grid coordinates themselves, so the key tolerance is one
/// grid unit: points share a key exactly when they agree in x and y.
pub const KEY_TOLERANCE: i64 = 1;

/// Largest absolute coordinate, in grid units, that the slicer accepts
/// (about a kilometre); it keeps all intermediate products inside `i128`.
pub const COORD_LIMIT: i64 = 1_099_511_627_776;

/// A point in model space, in grid units.
#[derive(Clone, Copy, Debug, PartialEq, Eq, Structural)]
pub struct Point3 {
    pub x: i64,
    pub y: i64,
    pub z: i64,
}

/// A triangle of a solid: three vertices, in cyclic order, and a face normal.
/// The normal is carried along; slicing reads only the vertices.
#[derive(Clone, Copy, Debug, PartialEq, Eq, Structural)]
pub struct Triangle {
    pub a: Point3,
    pub b: Point3,
    pub c: Point3,
    pub normal: Point3,
}

/// A quantised point key: the point's (x, y) on the key grid.
pub type PointKey = (i64, i64);

pub open spec fn coord_in_range(c: i64) -> bool {
    -COORD_LIMIT <= c <= COORD_LIMIT
}

pub open spec fn point_in_range(p: Point3) -> bool {
    coord_in_range(p.x) && coord_in_range(p.y) && coord_in_range(p.z)
}

pub open spec fn triangle_in_range(t: Triangle) -> bool {
    point_in_range(t.a) && point_in_range(t.b) && point_in_range(t.c)
}

pub open spec fn all_in_range(ts: Seq<Triangle>) -> bool {
    forall|i: int| 0 <= i < ts.len() ==> #[trigger] triangle_in_range(ts[i])
}

/// Strict lexicographic order on (x, y, z).
pub open spec fn lex_lt(a: Point3, b: Point3) -> bool {
    a.x < b.x || (a.x == b.x && (a.y < b.y || (a.y == b.y && a.z < b.z)))
}

pub open spec fn key_of(p: Point3) -> PointKey {
    (p.x, p.y)
}

impl Point3 {
    pub fn new(x: i64, y: i64, z: i64) -> (r: Point3)
        ensures
            r == (Point3 { x, y, z }),
    {
        Point3 { x, y, z }
    }

    /// Whether `self` comes strictly before `other` in (x, y, z) order.
    pub fn lex_less(&self, other: &Point3) -> (r: bool)
        ensures
            r == lex_lt(*self, *other),
    {
        self.x < other.x || (self.x == other.x && (self.y < other.y || (self.y == other.y
            && self.z < other.z)))
    }

    /// Whether the point lies inside the accepted coordinate range.
    pub fn in_range(&self) -> (r: bool)
        ensures
            r == point_in_range(*self),
    {
        -COORD_LIMIT <= self.x && self.x <= COORD_LIMIT && -COORD_LIMIT <= self.y && self.y
            <= COORD_LIMIT && -COORD_LIMIT <= self.z && self.z <= COORD_LIMIT
    }
}

impl Triangle {
    pub fn new(a: Point3, b: Point3, c: Point3, normal: Point3) -> (r: Triangle)
        ensures
            r == (Triangle { a, b, c, normal }),
    {
        Triangle { a, b, c, normal }
    }

    pub fn in_range(&self) -> (r: bool)
        ensures
            r == triangle_in_range(*self),
    {
        self.a.in_range() && self.b.in_range() && self.c.in_range()
    }
}

/// The quantised key of a point: its (x, y) on the grid. Points whose x and
/// y each differ by less than `KEY_TOLERANCE` share a key; all others do not.
pub fn point_to_key(p: &Point3) -> (r: PointKey)
    ensures
        r == key_of(*p),
{
    (p.x, p.y)
}

/// Two points share a quantised key exactly when both their x and their y
/// differ by less than the key tolerance; points exactly one tolerance apart
/// get different keys.
pub proof fn lemma_key_collapse(p: Point3, q: Point3)
    ensures
        key_of(p) == key_of(q) <==> (-KEY_TOLERANCE < p.x - q.x < KEY_TOLERANCE && -KEY_TOLERANCE
            < p.y - q.y < KEY_TOLERANCE),
{
}

} // verus!

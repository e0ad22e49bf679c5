//! The model's extent and the heights at which it is sliced.

use vstd::prelude::*;
use crate::geometry::{all_in_range, coord_in_range, triangle_in_range, Point3, Triangle};
use crate::intersect::lemma_div_between;
use crate::slicer::CPUSlicer;
use vstd::arithmetic::div_mod::lemma_fundamental_div_mod;

verus! {

/// An axis-aligned box given by its minimum and maximum corners.
#[derive(Clone, Copy, Debug, PartialEq, Eq, Structural)]
pub struct BoundingBox {
    pub min: Point3,
    pub max: Point3,
}

/// All vertices of the triangles, three per triangle, in order.
pub open spec fn vertices_of(ts: Seq<Triangle>) -> Seq<Point3>
    decreases ts.len(),
{
    if ts.len() == 0 {
        seq![]
    } else {
        vertices_of(ts.drop_last()) + seq![ts.last().a, ts.last().b, ts.last().c]
    }
}

pub open spec fn coord(p: Point3, axis: int) -> int {
    if axis == 0 {
        p.x as int
    } else if axis == 1 {
        p.y as int
    } else {
        p.z as int
    }
}

/// `bb` is the smallest box holding every point of `vs`: each corner
/// coordinate is attained by some point.
pub open spec fn is_bounding_box(vs: Seq<Point3>, bb: BoundingBox) -> bool {
    &&& forall|k: int, axis: int|
        0 <= k < vs.len() && 0 <= axis < 3 ==> coord(bb.min, axis) <= #[trigger] coord(
            vs[k],
            axis,
        ) <= coord(bb.max, axis)
    &&& forall|axis: int| 0 <= axis < 3 ==> #[trigger] attains(vs, coord(bb.min, axis), axis)
    &&& forall|axis: int| 0 <= axis < 3 ==> #[trigger] attains(vs, coord(bb.max, axis), axis)
}

/// Some point of `vs` has coordinate `v` on `axis`.
pub open spec fn attains(vs: Seq<Point3>, v: int, axis: int) -> bool {
    exists|k: int| 0 <= k < vs.len() && #[trigger] coord(vs[k], axis) == v
}

pub open spec fn min_i64(a: i64, b: i64) -> i64 {
    if b < a {
        b
    } else {
        a
    }
}

pub open spec fn max_i64(a: i64, b: i64) -> i64 {
    if b > a {
        b
    } else {
        a
    }
}

pub open spec fn widened(bb: BoundingBox, p: Point3) -> BoundingBox {
    BoundingBox {
        min: Point3 { x: min_i64(bb.min.x, p.x), y: min_i64(bb.min.y, p.y), z: min_i64(bb.min.z, p.z) },
        max: Point3 { x: max_i64(bb.max.x, p.x), y: max_i64(bb.max.y, p.y), z: max_i64(bb.max.z, p.z) },
    }
}

proof fn lemma_widen(vs: Seq<Point3>, bb: BoundingBox, p: Point3)
    requires
        is_bounding_box(vs, bb),
    ensures
        is_bounding_box(vs.push(p), widened(bb, p)),
{
    let ws = vs.push(p);
    let nb = widened(bb, p);
    assert forall|k: int, axis: int| 0 <= k < ws.len() && 0 <= axis < 3 implies coord(nb.min, axis)
        <= #[trigger] coord(ws[k], axis) <= coord(nb.max, axis) by {
        if k < vs.len() {
            assert(ws[k] == vs[k]);
            assert(coord(bb.min, axis) <= coord(vs[k], axis) <= coord(bb.max, axis));
        } else {
            assert(ws[k] == p);
        }
    }
    assert forall|axis: int| 0 <= axis < 3 implies #[trigger] attains(ws, coord(nb.min, axis), axis) by {
        if coord(nb.min, axis) == coord(p, axis) {
            assert(ws[vs.len() as int] == p);
            assert(coord(ws[vs.len() as int], axis) == coord(nb.min, axis));
        } else {
            assert(attains(vs, coord(bb.min, axis), axis));
            let k = choose|k: int| 0 <= k < vs.len() && #[trigger] coord(vs[k], axis) == coord(bb.min, axis);
            assert(ws[k] == vs[k]);
            assert(coord(ws[k], axis) == coord(nb.min, axis));
        }
    }
    assert forall|axis: int| 0 <= axis < 3 implies #[trigger] attains(ws, coord(nb.max, axis), axis) by {
        if coord(nb.max, axis) == coord(p, axis) {
            assert(ws[vs.len() as int] == p);
            assert(coord(ws[vs.len() as int], axis) == coord(nb.max, axis));
        } else {
            assert(attains(vs, coord(bb.max, axis), axis));
            let k = choose|k: int| 0 <= k < vs.len() && #[trigger] coord(vs[k], axis) == coord(bb.max, axis);
            assert(ws[k] == vs[k]);
            assert(coord(ws[k], axis) == coord(nb.max, axis));
        }
    }
}

fn widen(bb: &mut BoundingBox, p: &Point3)
    ensures
        *final(bb) == widened(*old(bb), *p),
{
    if p.x < bb.min.x {
        bb.min.x = p.x;
    }
    if p.y < bb.min.y {
        bb.min.y = p.y;
    }
    if p.z < bb.min.z {
        bb.min.z = p.z;
    }
    if p.x > bb.max.x {
        bb.max.x = p.x;
    }
    if p.y > bb.max.y {
        bb.max.y = p.y;
    }
    if p.z > bb.max.z {
        bb.max.z = p.z;
    }
}

impl CPUSlicer {
    /// The bounding box of all vertices; `None` when there are no triangles.
    pub fn compute_bounding_box(triangles: &Vec<Triangle>) -> (r: Option<BoundingBox>)
        ensures
            triangles@.len() == 0 <==> r is None,
            r matches Some(bb) ==> is_bounding_box(vertices_of(triangles@), bb),
    {
        if triangles.len() == 0 {
            return None;
        }
        let first = triangles[0].a;
        let mut bb = BoundingBox { min: first, max: first };
        let ghost mut vs: Seq<Point3> = seq![first];
        proof {
            assert forall|axis: int| 0 <= axis < 3 implies #[trigger] attains(vs, coord(bb.min, axis), axis)
                && attains(vs, coord(bb.max, axis), axis) by {
                assert(coord(vs[0], axis) == coord(bb.min, axis));
            }
            lemma_widen(vs, bb, triangles[0].b);
            vs = vs.push(triangles[0].b);
        }
        widen(&mut bb, &triangles[0].b);
        proof {
            lemma_widen(vs, bb, triangles[0].c);
            vs = vs.push(triangles[0].c);
            assert(triangles@.take(1).drop_last() =~= triangles@.take(0));
            assert(vertices_of(triangles@.take(0)) =~= seq![]);
            assert(vs =~= vertices_of(triangles@.take(1)));
        }
        widen(&mut bb, &triangles[0].c);
        let mut i: usize = 1;
        while i < triangles.len()
            invariant
                1 <= i <= triangles.len(),
                is_bounding_box(vertices_of(triangles@.take(i as int)), bb),
            decreases triangles.len() - i,
        {
            let t = &triangles[i];
            proof {
                let vs0 = vertices_of(triangles@.take(i as int));
                lemma_widen(vs0, bb, t.a);
                lemma_widen(vs0.push(t.a), widened(bb, t.a), t.b);
                lemma_widen(vs0.push(t.a).push(t.b), widened(widened(bb, t.a), t.b), t.c);
                assert(triangles@.take(i + 1).drop_last() =~= triangles@.take(i as int));
                assert(vs0.push(t.a).push(t.b).push(t.c) =~= vertices_of(triangles@.take(i + 1)));
            }
            widen(&mut bb, &t.a);
            widen(&mut bb, &t.b);
            widen(&mut bb, &t.c);
            i = i + 1;
        }
        assert(triangles@.take(i as int) =~= triangles@);
        Some(bb)
    }

    /// The lowest and highest vertex height; `None` when there are no triangles.
    pub fn z_range(triangles: &Vec<Triangle>) -> (r: Option<(i64, i64)>)
        ensures
            triangles@.len() == 0 <==> r is None,
            r matches Some(zs) ==> exists|bb: BoundingBox|
                is_bounding_box(vertices_of(triangles@), bb) && zs == (bb.min.z, bb.max.z),
    {
        match Self::compute_bounding_box(triangles) {
            None => None,
            Some(bb) => Some((bb.min.z, bb.max.z)),
        }
    }
}

/// How many planes fit from `min_z` to `max_z` at spacing `t`.
pub open spec fn schedule_len(min_z: int, max_z: int, t: int) -> int {
    if max_z < min_z {
        0
    } else {
        (max_z - min_z) / t + 1
    }
}

/// The planes `min_z, min_z + t, min_z + 2t, ...` that do not exceed `max_z`.
pub open spec fn plane_schedule(min_z: int, max_z: int, t: int) -> Seq<int> {
    Seq::new(schedule_len(min_z, max_z, t) as nat, |k: int| min_z + k * t)
}

/// The slicing heights from `min_z` up to `max_z`, `thickness` apart.
pub fn plane_heights(min_z: i64, max_z: i64, thickness: i64) -> (r: Vec<i64>)
    requires
        thickness > 0,
    ensures
        r@.len() == plane_schedule(min_z as int, max_z as int, thickness as int).len(),
        forall|k: int| 0 <= k < r@.len() ==> #[trigger] r@[k] == min_z + k * thickness,
{
    let mut r: Vec<i64> = Vec::new();
    if min_z > max_z {
        return r;
    }
    let mut z: i64 = min_z;
    let mut done = false;
    assert(r@.len() == 0);
    assert(min_z + 0 * thickness == min_z);
    while !done
        invariant
            thickness > 0,
            min_z <= z <= max_z,
            min_z <= max_z,
            done ==> z == min_z + (r@.len() - 1) * thickness,
            !done ==> z == min_z + r@.len() * thickness,
            done ==> r@.len() == schedule_len(min_z as int, max_z as int, thickness as int),
            forall|k: int| 0 <= k < r@.len() ==> #[trigger] r@[k] == min_z + k * thickness,
        decreases (max_z - z) + (if done { 0int } else { 1int }),
    {
        r.push(z);
        if (max_z as i128) - (z as i128) < thickness as i128 {
            done = true;
            proof {
                let n = r@.len() as int;
                let t = thickness as int;
                let d = (max_z - min_z) as int;
                assert(t * (n - 1) <= d && d < t * ((n - 1) + 1)) by (nonlinear_arith)
                    requires
                        z == min_z + (n - 1) * t,
                        0 <= max_z - z < t,
                        d == max_z - min_z,
                ;
                lemma_div_between(d, t, n - 1, n - 1);
            }
        } else {
            proof {
                let n = r@.len() as int;
                assert(z + thickness == min_z + n * thickness) by (nonlinear_arith)
                    requires
                        z == min_z + (n - 1) * thickness,
                ;
            }
            z = z + thickness;
        }
    }
    r
}

/// The corners of the bounding box of triangles in range are in range.
pub proof fn lemma_box_in_range(ts: Seq<Triangle>, bb: BoundingBox)
    requires
        all_in_range(ts),
        is_bounding_box(vertices_of(ts), bb),
    ensures
        coord_in_range(bb.min.z),
        coord_in_range(bb.max.z),
{
    lemma_vertices_in_range(ts);
    assert(attains(vertices_of(ts), coord(bb.min, 2), 2));
    assert(attains(vertices_of(ts), coord(bb.max, 2), 2));
}

proof fn lemma_vertices_in_range(ts: Seq<Triangle>)
    requires
        all_in_range(ts),
    ensures
        forall|k: int|
            0 <= k < vertices_of(ts).len() ==> coord_in_range(#[trigger] vertices_of(ts)[k].z),
    decreases ts.len(),
{
    if ts.len() > 0 {
        let init = ts.drop_last();
        assert(all_in_range(init)) by {
            assert forall|i: int| 0 <= i < init.len() implies #[trigger] triangle_in_range(init[i]) by {
                assert(init[i] == ts[i]);
            }
        }
        lemma_vertices_in_range(init);
        assert(triangle_in_range(ts[ts.len() - 1]));
        let a = vertices_of(init);
        assert forall|k: int| 0 <= k < vertices_of(ts).len() implies coord_in_range(
            #[trigger] vertices_of(ts)[k].z,
        ) by {
            if k < a.len() {
                assert(vertices_of(ts)[k] == a[k]);
            }
        }
    }
}

/// The plane schedule of a non-empty height range begins exactly at its
/// lower end, and its planes stay within the range, `t` apart.
pub proof fn lemma_schedule_shape(min_z: int, max_z: int, t: int)
    requires
        t > 0,
        min_z <= max_z,
    ensures
        plane_schedule(min_z, max_z, t).len() >= 1,
        plane_schedule(min_z, max_z, t)[0] == min_z,
        forall|k: int|
            0 <= k < plane_schedule(min_z, max_z, t).len() ==> min_z <= #[trigger] plane_schedule(
                min_z,
                max_z,
                t,
            )[k] <= max_z,
        forall|k: int|
            0 < k < plane_schedule(min_z, max_z, t).len() ==> #[trigger] plane_schedule(
                min_z,
                max_z,
                t,
            )[k] == plane_schedule(min_z, max_z, t)[k - 1] + t,
{
    let s = plane_schedule(min_z, max_z, t);
    let d = max_z - min_z;
    lemma_fundamental_div_mod(d, t);
    assert(d / t >= 0) by (nonlinear_arith)
        requires
            d == t * (d / t) + d % t,
            0 <= d % t < t,
            d >= 0,
            t > 0,
    ;
    assert(s[0] == min_z + 0 * t);
    assert forall|k: int| 0 <= k < s.len() implies min_z <= #[trigger] s[k] <= max_z by {
        assert(0 <= k * t <= d) by (nonlinear_arith)
            requires
                0 <= k <= d / t,
                d == t * (d / t) + d % t,
                0 <= d % t,
                t > 0,
        ;
    }
    assert forall|k: int| 0 < k < s.len() implies #[trigger] s[k] == s[k - 1] + t by {
        assert(min_z + k * t == min_z + (k - 1) * t + t) by (nonlinear_arith);
    }
}

/// A set of points has only one bounding box.
pub proof fn lemma_bounding_box_unique(vs: Seq<Point3>, b1: BoundingBox, b2: BoundingBox)
    requires
        is_bounding_box(vs, b1),
        is_bounding_box(vs, b2),
    ensures
        b1 == b2,
{
    assert forall|axis: int| 0 <= axis < 3 implies coord(b1.min, axis) == coord(b2.min, axis)
        && coord(b1.max, axis) == coord(b2.max, axis) by {
        assert(attains(vs, coord(b1.min, axis), axis));
        assert(attains(vs, coord(b2.min, axis), axis));
        assert(attains(vs, coord(b1.max, axis), axis));
        assert(attains(vs, coord(b2.max, axis), axis));
        let k1 = choose|k: int| 0 <= k < vs.len() && #[trigger] coord(vs[k], axis) == coord(b1.min, axis);
        let k2 = choose|k: int| 0 <= k < vs.len() && #[trigger] coord(vs[k], axis) == coord(b2.min, axis);
        let k3 = choose|k: int| 0 <= k < vs.len() && #[trigger] coord(vs[k], axis) == coord(b1.max, axis);
        let k4 = choose|k: int| 0 <= k < vs.len() && #[trigger] coord(vs[k], axis) == coord(b2.max, axis);
    }
    assert(coord(b1.min, 0) == coord(b2.min, 0) && coord(b1.min, 1) == coord(b2.min, 1) && coord(b1.min, 2) == coord(b2.min, 2));
    assert(coord(b1.max, 0) == coord(b2.max, 0) && coord(b1.max, 1) == coord(b2.max, 1) && coord(b1.max, 2) == coord(b2.max, 2));
}

} // verus!

//! Plane-triangle intersection: where a horizontal plane cuts each triangle.

use vstd::prelude::*;
use vstd::arithmetic::div_mod::lemma_fundamental_div_mod;
use crate::geometry::{
    all_in_range, coord_in_range, lex_lt, point_in_range, triangle_in_range, Point3, Triangle, COORD_LIMIT,
    EPSILON,
};

verus! {

/// Signed height of `p` above the plane at `pz`.
pub open spec fn dist(p: Point3, pz: i64) -> int {
    p.z - pz
}

pub open spec fn is_above(d: int) -> bool {
    d > EPSILON
}

pub open spec fn is_below(d: int) -> bool {
    d < -EPSILON
}

pub open spec fn is_on(d: int) -> bool {
    -EPSILON <= d <= EPSILON
}

/// The triangle does not lie strictly on one side of the plane: not all
/// three vertices are strictly above it, nor all three strictly below.
pub open spec fn touches(t: Triangle, pz: i64) -> bool {
    !(is_above(dist(t.a, pz)) && is_above(dist(t.b, pz)) && is_above(dist(t.c, pz))) && !(
    is_below(dist(t.a, pz)) && is_below(dist(t.b, pz)) && is_below(dist(t.c, pz)))
}

/// `n / d` rounded to the nearest integer, halves upwards (`d > 0`).
pub open spec fn round_div(n: int, d: int) -> int {
    (2 * n + d) / (2 * d)
}

pub open spec fn abs(v: int) -> int {
    if v < 0 {
        -v
    } else {
        v
    }
}

/// One coordinate of the point where an edge from `u` to `v` crosses the
/// plane, the endpoints lying `du` and `dv` away from it on opposite sides.
pub open spec fn lerp(u: int, v: int, du: int, dv: int) -> int {
    u + round_div((v - u) * abs(du), abs(du) + abs(dv))
}

pub open spec fn crossing_from(p: Point3, q: Point3, pz: i64) -> Point3 {
    let dp = dist(p, pz);
    let dq = dist(q, pz);
    Point3 {
        x: lerp(p.x as int, q.x as int, dp, dq) as i64,
        y: lerp(p.y as int, q.y as int, dp, dq) as i64,
        z: lerp(p.z as int, q.z as int, dp, dq) as i64,
    }
}

/// The crossing point of an edge, always measured from its lexicographically
/// smaller endpoint, so that the two triangles sharing an edge agree exactly.
pub open spec fn crossing(p: Point3, q: Point3, pz: i64) -> Point3 {
    if lex_lt(q, p) {
        crossing_from(q, p, pz)
    } else {
        crossing_from(p, q, pz)
    }
}

/// What the directed edge from `p` to `q` contributes.
pub open spec fn edge_points(p: Point3, q: Point3, pz: i64) -> Seq<Point3> {
    let dp = dist(p, pz);
    let dq = dist(q, pz);
    if (is_above(dp) && is_below(dq)) || (is_below(dp) && is_above(dq)) {
        seq![crossing(p, q, pz)]
    } else if is_on(dp) && is_on(dq) {
        seq![p, q]
    } else if is_on(dp) {
        seq![p]
    } else if is_on(dq) {
        seq![q]
    } else {
        seq![]
    }
}

/// The points emitted by the three edges, in cyclic order.
pub open spec fn raw_points(t: Triangle, pz: i64) -> Seq<Point3> {
    edge_points(t.a, t.b, pz) + edge_points(t.b, t.c, pz) + edge_points(t.c, t.a, pz)
}

/// Inserts `p` before the first element not lexicographically smaller than it,
/// unless that element is `p` itself.
pub open spec fn insert_sorted(s: Seq<Point3>, p: Point3) -> Seq<Point3>
    decreases s.len(),
{
    if s.len() == 0 {
        seq![p]
    } else if s[0] == p {
        s
    } else if lex_lt(s[0], p) {
        seq![s[0]] + insert_sorted(s.drop_first(), p)
    } else {
        seq![p] + s
    }
}

/// The distinct points of `s`, in lexicographic order.
pub open spec fn sort_unique(s: Seq<Point3>) -> Seq<Point3>
    decreases s.len(),
{
    if s.len() == 0 {
        seq![]
    } else {
        insert_sorted(sort_unique(s.drop_last()), s.last())
    }
}

/// The intersection points of a triangle with the plane at `pz`.
pub open spec fn intersection_points(t: Triangle, pz: i64) -> Seq<Point3> {
    if touches(t, pz) {
        sort_unique(raw_points(t, pz))
    } else {
        seq![]
    }
}

pub open spec fn strictly_sorted(s: Seq<Point3>) -> bool {
    forall|i: int, j: int| 0 <= i < j < s.len() ==> lex_lt(s[i], s[j])
}

pub(crate) proof fn lemma_div_between(x: int, d: int, lo: int, hi: int)
    requires
        d > 0,
        d * lo <= x,
        x < d * (hi + 1),
    ensures
        lo <= x / d <= hi,
{
    lemma_fundamental_div_mod(x, d);
    let q = x / d;
    let r = x % d;
    assert(lo <= q) by (nonlinear_arith)
        requires
            d * lo <= x,
            x == d * q + r,
            0 <= r < d,
            d > 0,
    ;
    assert(q <= hi) by (nonlinear_arith)
        requires
            x < d * (hi + 1),
            x == d * q + r,
            0 <= r,
            d > 0,
    ;
}

/// Floor division by a positive divisor, for any sign of the dividend.
pub(crate) fn floor_div(n: i128, d: i128) -> (r: i128)
    requires
        d > 0,
        -0x4000_0000_0000_0000_0000_0000_0000_0000 < n < 0x4000_0000_0000_0000_0000_0000_0000_0000,
        d < 0x4000_0000_0000_0000_0000_0000_0000_0000,
    ensures
        r == n as int / d as int,
{
    if n >= 0 {
        n / d
    } else {
        let m: i128 = -n + d - 1;
        let q: i128 = m / d;
        proof {
            lemma_fundamental_div_mod(m as int, d as int);
            let r = m as int % d as int;
            assert(d * (-q) <= n && n < d * (-q + 1)) by (nonlinear_arith)
                requires
                    m == d * q + r,
                    0 <= r < d,
                    m == -n + d - 1,
            ;
            lemma_div_between(n as int, d as int, -q, -q);
        }
        -q
    }
}

proof fn lemma_lerp_between(u: int, v: int, du: int, dv: int)
    requires
        du != 0,
        dv != 0,
    ensures
        u <= v ==> u <= lerp(u, v, du, dv) <= v,
        v < u ==> v <= lerp(u, v, du, dv) <= u,
{
    let a = abs(du);
    let b = abs(dv);
    let den = a + b;
    let delta = v - u;
    let n = 2 * (delta * a) + den;
    if delta >= 0 {
        assert(2 * den * 0 <= n && n < 2 * den * (delta + 1)) by (nonlinear_arith)
            requires
                a > 0,
                b > 0,
                den == a + b,
                delta >= 0,
                n == 2 * (delta * a) + den,
        ;
        lemma_div_between(n, 2 * den, 0, delta);
    } else {
        assert(2 * den * delta <= n && n < 2 * den * (0 + 1)) by (nonlinear_arith)
            requires
                a > 0,
                b > 0,
                den == a + b,
                delta < 0,
                n == 2 * (delta * a) + den,
        ;
        lemma_div_between(n, 2 * den, delta, 0);
    }
}

fn lerp_exec(u: i64, v: i64, du: i64, dv: i64) -> (r: i64)
    requires
        coord_in_range(u),
        coord_in_range(v),
        du != 0,
        dv != 0,
        -2 * COORD_LIMIT <= du <= 2 * COORD_LIMIT,
        -2 * COORD_LIMIT <= dv <= 2 * COORD_LIMIT,
    ensures
        r == lerp(u as int, v as int, du as int, dv as int),
        coord_in_range(r),
{
    let a: i128 = if du < 0 { -(du as i128) } else { du as i128 };
    let b: i128 = if dv < 0 { -(dv as i128) } else { dv as i128 };
    let delta: i128 = v as i128 - u as i128;
    proof {
        assert(-0x10_0000_0000_0000_0000_0000 <= delta * a <= 0x10_0000_0000_0000_0000_0000)
            by (nonlinear_arith)
            requires
                -0x400_0000_0000 <= delta <= 0x400_0000_0000,
                0 < a <= 0x400_0000_0000,
        ;
    }
    let prod: i128 = delta * a;
    let den: i128 = a + b;
    let q: i128 = floor_div(2 * prod + den, 2 * den);
    proof {
        lemma_lerp_between(u as int, v as int, du as int, dv as int);
    }
    (u as i128 + q) as i64
}

fn crossing_from_exec(p: &Point3, q: &Point3, pz: i64) -> (r: Point3)
    requires
        point_in_range(*p),
        point_in_range(*q),
        coord_in_range(pz),
        dist(*p, pz) != 0,
        dist(*q, pz) != 0,
    ensures
        r == crossing_from(*p, *q, pz),
{
    let dp: i64 = p.z - pz;
    let dq: i64 = q.z - pz;
    Point3 {
        x: lerp_exec(p.x, q.x, dp, dq),
        y: lerp_exec(p.y, q.y, dp, dq),
        z: lerp_exec(p.z, q.z, dp, dq),
    }
}

fn crossing_exec(p: &Point3, q: &Point3, pz: i64) -> (r: Point3)
    requires
        point_in_range(*p),
        point_in_range(*q),
        coord_in_range(pz),
        dist(*p, pz) != 0,
        dist(*q, pz) != 0,
    ensures
        r == crossing(*p, *q, pz),
{
    if q.lex_less(p) {
        crossing_from_exec(q, p, pz)
    } else {
        crossing_from_exec(p, q, pz)
    }
}

fn on_plane(d: i64) -> (r: bool)
    ensures
        r == is_on(d as int),
{
    -EPSILON <= d && d <= EPSILON
}

/// Appends what the directed edge from `p` to `q` contributes.
fn push_edge_points(out: &mut Vec<Point3>, p: &Point3, q: &Point3, pz: i64)
    requires
        point_in_range(*p),
        point_in_range(*q),
        coord_in_range(pz),
    ensures
        final(out)@ == old(out)@ + edge_points(*p, *q, pz),
{
    let dp: i64 = p.z - pz;
    let dq: i64 = q.z - pz;
    if (dp > EPSILON && dq < -EPSILON) || (dp < -EPSILON && dq > EPSILON) {
        out.push(crossing_exec(p, q, pz));
    } else if on_plane(dp) && on_plane(dq) {
        out.push(*p);
        out.push(*q);
    } else if on_plane(dp) {
        out.push(*p);
    } else if on_plane(dq) {
        out.push(*q);
    }
    assert(final(out)@ =~= old(out)@ + edge_points(*p, *q, pz));
}

/// Inserts `p` into `v` as `insert_sorted` describes.
fn insert_unique(v: &mut Vec<Point3>, p: Point3)
    ensures
        final(v)@ == insert_sorted(old(v)@, p),
{
    let mut i: usize = 0;
    assert(v@.take(0) + v@.skip(0) =~= v@);
    assert(v@.take(0) =~= Seq::<Point3>::empty());
    while i < v.len() && v[i].lex_less(&p)
        invariant
            0 <= i <= v.len(),
            v@ == old(v)@,
            insert_sorted(v@, p) == v@.take(i as int) + insert_sorted(v@.skip(i as int), p),
        decreases v.len() - i,
    {
        proof {
            let s = v@.skip(i as int);
            assert(s.drop_first() =~= v@.skip(i + 1));
            assert(v@.take(i + 1) =~= v@.take(i as int) + seq![v@[i as int]]);
            assert(insert_sorted(s, p) == seq![s[0]] + insert_sorted(s.drop_first(), p));
            assert(v@.take(i as int) + insert_sorted(s, p) =~= v@.take(i + 1) + insert_sorted(
                v@.skip(i + 1),
                p,
            ));
        }
        i = i + 1;
    }
    if i == v.len() {
        proof {
            assert(v@.skip(i as int) =~= Seq::<Point3>::empty());
            assert(v@.take(i as int) =~= v@);
        }
        v.push(p);
    } else if v[i] == p {
        proof {
            assert(v@.take(i as int) + v@.skip(i as int) =~= v@);
        }
    } else {
        proof {
            assert(v@.take(i as int) + (seq![p] + v@.skip(i as int)) =~= v@.insert(i as int, p));
        }
        v.insert(i, p);
    }
}

/// The points where the plane at `pz` meets the triangle: none when the
/// triangle lies strictly on one side of the plane; otherwise the distinct
/// points that its edges contribute, in lexicographic order.
pub fn intersect_triangle_with_plane(triangle: &Triangle, plane_z: i64) -> (r: Vec<Point3>)
    requires
        triangle_in_range(*triangle),
        coord_in_range(plane_z),
    ensures
        r@ == intersection_points(*triangle, plane_z),
{
    let da: i64 = triangle.a.z - plane_z;
    let db: i64 = triangle.b.z - plane_z;
    let dc: i64 = triangle.c.z - plane_z;
    let all_above = da > EPSILON && db > EPSILON && dc > EPSILON;
    let all_below = da < -EPSILON && db < -EPSILON && dc < -EPSILON;
    if all_above || all_below {
        return Vec::new();
    }
    let mut raw: Vec<Point3> = Vec::new();
    push_edge_points(&mut raw, &triangle.a, &triangle.b, plane_z);
    push_edge_points(&mut raw, &triangle.b, &triangle.c, plane_z);
    push_edge_points(&mut raw, &triangle.c, &triangle.a, plane_z);
    assert(raw@ =~= raw_points(*triangle, plane_z));
    let mut out: Vec<Point3> = Vec::new();
    let mut k: usize = 0;
    while k < raw.len()
        invariant
            0 <= k <= raw.len(),
            out@ == sort_unique(raw@.take(k as int)),
        decreases raw.len() - k,
    {
        proof {
            assert(raw@.take(k + 1).drop_last() =~= raw@.take(k as int));
        }
        insert_unique(&mut out, raw[k]);
        k = k + 1;
    }
    assert(raw@.take(k as int) =~= raw@);
    out
}

/// A segment of the cross-section: a pair of points on the plane.
pub type Segment = (Point3, Point3);

/// What one triangle contributes: a segment when it meets the plane in exactly
/// two points; nothing when it misses it or lies (nearly) within it.
pub open spec fn segment_of(t: Triangle, pz: i64) -> Seq<Segment> {
    let pts = intersection_points(t, pz);
    if pts.len() == 2 {
        seq![(pts[0], pts[1])]
    } else {
        seq![]
    }
}

/// The segments of all triangles, in triangle order.
pub open spec fn segments_at(ts: Seq<Triangle>, pz: i64) -> Seq<Segment>
    decreases ts.len(),
{
    if ts.len() == 0 {
        seq![]
    } else {
        segments_at(ts.drop_last(), pz) + segment_of(ts.last(), pz)
    }
}

/// Collects the intersection segments of all triangles with the plane at `plane_z`.
pub fn collect_intersection_segments(triangles: &Vec<Triangle>, plane_z: i64) -> (r: Vec<Segment>)
    requires
        all_in_range(triangles@),
        coord_in_range(plane_z),
    ensures
        r@ == segments_at(triangles@, plane_z),
{
    let mut segments: Vec<Segment> = Vec::new();
    let mut i: usize = 0;
    while i < triangles.len()
        invariant
            0 <= i <= triangles.len(),
            all_in_range(triangles@),
            coord_in_range(plane_z),
            segments@ == segments_at(triangles@.take(i as int), plane_z),
        decreases triangles.len() - i,
    {
        proof {
            assert(triangles@.take(i + 1).drop_last() =~= triangles@.take(i as int));
        }
        let pts = intersect_triangle_with_plane(&triangles[i], plane_z);
        if pts.len() == 2 {
            segments.push((pts[0], pts[1]));
        }
        proof {
            assert(segments@ =~= segments_at(triangles@.take(i as int), plane_z) + segment_of(
                triangles@[i as int],
                plane_z,
            ));
        }
        i = i + 1;
    }
    assert(triangles@.take(i as int) =~= triangles@);
    segments
}

/// Every vertex of every triangle lies below `pz` by more than the tolerance.
pub open spec fn all_below(ts: Seq<Triangle>, pz: i64) -> bool {
    forall|i: int|
        #![trigger ts[i]]
        0 <= i < ts.len() ==> ts[i].a.z < pz - EPSILON && ts[i].b.z < pz - EPSILON && ts[i].c.z
            < pz - EPSILON
}

/// Every vertex of every triangle lies above `pz` by more than the tolerance.
pub open spec fn all_above(ts: Seq<Triangle>, pz: i64) -> bool {
    forall|i: int|
        #![trigger ts[i]]
        0 <= i < ts.len() ==> ts[i].a.z > pz + EPSILON && ts[i].b.z > pz + EPSILON && ts[i].c.z
            > pz + EPSILON
}

/// A plane that lies outside the triangle's height range, by more than the
/// tolerance, meets it in no point.
pub proof fn lemma_plane_clear_of_triangle(t: Triangle, pz: i64)
    requires
        (t.a.z < pz - EPSILON && t.b.z < pz - EPSILON && t.c.z < pz - EPSILON) || (t.a.z > pz
            + EPSILON && t.b.z > pz + EPSILON && t.c.z > pz + EPSILON),
    ensures
        intersection_points(t, pz).len() == 0,
{
}

/// A plane above or below the whole model, by more than the tolerance, cuts
/// no segment.
pub proof fn lemma_no_segments_outside(ts: Seq<Triangle>, pz: i64)
    requires
        all_below(ts, pz) || all_above(ts, pz),
    ensures
        segments_at(ts, pz).len() == 0,
    decreases ts.len(),
{
    if ts.len() > 0 {
        let rest = ts.drop_last();
        assert(all_below(rest, pz) || all_above(rest, pz)) by {
            if all_below(ts, pz) {
                assert forall|i: int| #![trigger rest[i]]
                    0 <= i < rest.len() implies rest[i].a.z < pz - EPSILON && rest[i].b.z < pz - EPSILON
                        && rest[i].c.z < pz - EPSILON by {
                    assert(rest[i] == ts[i]);
                }
            } else {
                assert forall|i: int| #![trigger rest[i]]
                    0 <= i < rest.len() implies rest[i].a.z > pz + EPSILON && rest[i].b.z > pz + EPSILON
                        && rest[i].c.z > pz + EPSILON by {
                    assert(rest[i] == ts[i]);
                }
            }
        }
        lemma_no_segments_outside(rest, pz);
        assert(ts[ts.len() - 1] == ts.last());
        assert(!touches(ts.last(), pz));
    }
}

proof fn lemma_insert_sorted_subset(s: Seq<Point3>, p: Point3)
    ensures
        forall|x: Point3| #[trigger] insert_sorted(s, p).contains(x) ==> s.contains(x) || x == p,
    decreases s.len(),
{
    if s.len() > 0 && s[0] != p && lex_lt(s[0], p) {
        let rest = s.drop_first();
        lemma_insert_sorted_subset(rest, p);
        assert forall|x: Point3| #[trigger] insert_sorted(s, p).contains(x) implies s.contains(x)
            || x == p by {
            let r = insert_sorted(s, p);
            let k = choose|k: int| 0 <= k < r.len() && r[k] == x;
            if k == 0 {
                assert(s[0] == x);
            } else {
                assert(insert_sorted(rest, p)[k - 1] == x);
                assert(insert_sorted(rest, p).contains(x));
                if rest.contains(x) {
                    let m = choose|m: int| 0 <= m < rest.len() && rest[m] == x;
                    assert(s[m + 1] == x);
                }
            }
        }
    } else if s.len() > 0 && s[0] != p {
        assert forall|x: Point3| #[trigger] insert_sorted(s, p).contains(x) implies s.contains(x)
            || x == p by {
            let r = insert_sorted(s, p);
            let k = choose|k: int| 0 <= k < r.len() && r[k] == x;
            if k > 0 {
                assert(s[k - 1] == x);
            }
        }
    }
}

proof fn lemma_sort_unique_subset(s: Seq<Point3>)
    ensures
        forall|x: Point3| #[trigger] sort_unique(s).contains(x) ==> s.contains(x),
    decreases s.len(),
{
    if s.len() > 0 {
        let init = s.drop_last();
        lemma_sort_unique_subset(init);
        lemma_insert_sorted_subset(sort_unique(init), s.last());
        assert forall|x: Point3| #[trigger] sort_unique(s).contains(x) implies s.contains(x) by {
            if init.contains(x) {
                let m = choose|m: int| 0 <= m < init.len() && init[m] == x;
                assert(s[m] == x);
            } else {
                assert(s[s.len() - 1] == x);
            }
        }
    }
}

proof fn lemma_crossing_in_range(p: Point3, q: Point3, pz: i64)
    requires
        point_in_range(p),
        point_in_range(q),
        dist(p, pz) != 0,
        dist(q, pz) != 0,
    ensures
        point_in_range(crossing(p, q, pz)),
{
    lemma_lerp_between(p.x as int, q.x as int, dist(p, pz), dist(q, pz));
    lemma_lerp_between(p.y as int, q.y as int, dist(p, pz), dist(q, pz));
    lemma_lerp_between(p.z as int, q.z as int, dist(p, pz), dist(q, pz));
    lemma_lerp_between(q.x as int, p.x as int, dist(q, pz), dist(p, pz));
    lemma_lerp_between(q.y as int, p.y as int, dist(q, pz), dist(p, pz));
    lemma_lerp_between(q.z as int, p.z as int, dist(q, pz), dist(p, pz));
}

/// Every intersection point of a triangle in range is itself in range.
proof fn lemma_points_in_range(t: Triangle, pz: i64)
    requires
        triangle_in_range(t),
    ensures
        forall|i: int|
            0 <= i < intersection_points(t, pz).len() ==> point_in_range(
                #[trigger] intersection_points(t, pz)[i],
            ),
{
    if touches(t, pz) {
        let raw = raw_points(t, pz);
        if dist(t.a, pz) != 0 && dist(t.b, pz) != 0 {
            lemma_crossing_in_range(t.a, t.b, pz);
        }
        if dist(t.b, pz) != 0 && dist(t.c, pz) != 0 {
            lemma_crossing_in_range(t.b, t.c, pz);
        }
        if dist(t.c, pz) != 0 && dist(t.a, pz) != 0 {
            lemma_crossing_in_range(t.c, t.a, pz);
        }
        assert forall|k: int| 0 <= k < raw.len() implies point_in_range(#[trigger] raw[k]) by {
            let e1 = edge_points(t.a, t.b, pz);
            let e2 = edge_points(t.b, t.c, pz);
            if k < e1.len() {
                assert(raw[k] == e1[k]);
            } else if k < e1.len() + e2.len() {
                assert(raw[k] == e2[k - e1.len()]);
            } else {
                assert(raw[k] == edge_points(t.c, t.a, pz)[k - e1.len() - e2.len()]);
            }
        }
        lemma_sort_unique_subset(raw);
        let r = sort_unique(raw);
        assert forall|i: int| 0 <= i < r.len() implies point_in_range(#[trigger] r[i]) by {
            assert(r.contains(r[i]));
            let m = choose|m: int| 0 <= m < raw.len() && raw[m] == r[i];
        }
    }
}

/// Every endpoint of the segments of triangles in range is in range.
pub proof fn lemma_segments_in_range(ts: Seq<Triangle>, pz: i64)
    requires
        all_in_range(ts),
    ensures
        forall|j: int|
            0 <= j < segments_at(ts, pz).len() ==> point_in_range((#[trigger] segments_at(ts, pz)[j]).0)
                && point_in_range(segments_at(ts, pz)[j].1),
    decreases ts.len(),
{
    if ts.len() > 0 {
        let init = ts.drop_last();
        assert(all_in_range(init)) by {
            assert forall|i: int| 0 <= i < init.len() implies #[trigger] triangle_in_range(init[i]) by {
                assert(init[i] == ts[i]);
            }
        }
        lemma_segments_in_range(init, pz);
        assert(triangle_in_range(ts[ts.len() - 1]));
        lemma_points_in_range(ts.last(), pz);
        let a = segments_at(init, pz);
        let b = segment_of(ts.last(), pz);
        assert forall|j: int| 0 <= j < segments_at(ts, pz).len() implies point_in_range(
            (#[trigger] segments_at(ts, pz)[j]).0,
        ) && point_in_range(segments_at(ts, pz)[j].1) by {
            if j < a.len() {
                assert(segments_at(ts, pz)[j] == a[j]);
            } else {
                assert(segments_at(ts, pz)[j] == b[j - a.len()]);
            }
        }
    }
}

/// Two triangles that share an edge, whichever way round each lists it,
/// compute the very same point where that edge crosses the plane.
pub proof fn lemma_shared_edge_crossing(p: Point3, q: Point3, pz: i64)
    ensures
        crossing(p, q, pz) == crossing(q, p, pz),
{
}

/// A plane that meets no triangle at all cuts no segment.
pub proof fn lemma_no_points_no_segments(ts: Seq<Triangle>, pz: i64)
    requires
        forall|i: int| 0 <= i < ts.len() ==> intersection_points(#[trigger] ts[i], pz).len() == 0,
    ensures
        segments_at(ts, pz).len() == 0,
    decreases ts.len(),
{
    if ts.len() > 0 {
        let init = ts.drop_last();
        assert forall|i: int| 0 <= i < init.len() implies intersection_points(#[trigger] init[i], pz).len() == 0 by {
            assert(init[i] == ts[i]);
        }
        lemma_no_points_no_segments(init, pz);
        assert(intersection_points(ts[ts.len() - 1], pz).len() == 0);
    }
}

proof fn lemma_insert_sorted_sorted(s: Seq<Point3>, p: Point3)
    requires
        strictly_sorted(s),
    ensures
        strictly_sorted(insert_sorted(s, p)),
    decreases s.len(),
{
    if s.len() > 0 && s[0] != p {
        let rest = s.drop_first();
        if lex_lt(s[0], p) {
            assert(strictly_sorted(rest)) by {
                assert forall|i: int, j: int| 0 <= i < j < rest.len() implies lex_lt(rest[i], rest[j]) by {
                    assert(rest[i] == s[i + 1] && rest[j] == s[j + 1]);
                }
            }
            lemma_insert_sorted_sorted(rest, p);
            lemma_insert_sorted_subset(rest, p);
            let tail = insert_sorted(rest, p);
            let r = insert_sorted(s, p);
            assert forall|i: int, j: int| 0 <= i < j < r.len() implies lex_lt(r[i], r[j]) by {
                assert(r[j] == tail[j - 1]);
                if i == 0 {
                    assert(tail.contains(tail[j - 1]));
                    if rest.contains(tail[j - 1]) {
                        let m = choose|m: int| 0 <= m < rest.len() && rest[m] == tail[j - 1];
                        assert(rest[m] == s[m + 1]);
                    }
                } else {
                    assert(r[i] == tail[i - 1]);
                }
            }
        } else {
            let r = insert_sorted(s, p);
            assert forall|i: int, j: int| 0 <= i < j < r.len() implies lex_lt(r[i], r[j]) by {
                assert(r[j] == s[j - 1]);
                if i > 0 {
                    assert(r[i] == s[i - 1]);
                } else if j > 1 {
                    assert(lex_lt(s[0], s[j - 1]));
                }
            }
        }
    }
}

proof fn lemma_insert_sorted_superset(s: Seq<Point3>, p: Point3)
    ensures
        insert_sorted(s, p).contains(p),
        forall|x: Point3| #[trigger] s.contains(x) ==> insert_sorted(s, p).contains(x),
    decreases s.len(),
{
    let r = insert_sorted(s, p);
    if s.len() == 0 {
        assert(r[0] == p);
    } else if s[0] == p {
        assert(r[0] == p);
    } else if lex_lt(s[0], p) {
        let rest = s.drop_first();
        lemma_insert_sorted_superset(rest, p);
        let tail = insert_sorted(rest, p);
        let k = choose|k: int| 0 <= k < tail.len() && tail[k] == p;
        assert(r[k + 1] == p);
        assert forall|x: Point3| #[trigger] s.contains(x) implies r.contains(x) by {
            let m = choose|m: int| 0 <= m < s.len() && s[m] == x;
            if m == 0 {
                assert(r[0] == x);
            } else {
                assert(rest[m - 1] == x);
                assert(rest.contains(x));
                let q = choose|q: int| 0 <= q < tail.len() && tail[q] == x;
                assert(r[q + 1] == x);
            }
        }
    } else {
        assert(r[0] == p);
        assert forall|x: Point3| #[trigger] s.contains(x) implies r.contains(x) by {
            let m = choose|m: int| 0 <= m < s.len() && s[m] == x;
            assert(r[m + 1] == x);
        }
    }
}

proof fn lemma_sort_unique_superset(s: Seq<Point3>)
    ensures
        forall|x: Point3| #[trigger] s.contains(x) ==> sort_unique(s).contains(x),
    decreases s.len(),
{
    if s.len() > 0 {
        let init = s.drop_last();
        lemma_sort_unique_superset(init);
        lemma_insert_sorted_superset(sort_unique(init), s.last());
        assert forall|x: Point3| #[trigger] s.contains(x) implies sort_unique(s).contains(x) by {
            let m = choose|m: int| 0 <= m < s.len() && s[m] == x;
            if m < init.len() {
                assert(init[m] == x);
                assert(init.contains(x));
            }
        }
    }
}

proof fn lemma_sort_unique_sorted(s: Seq<Point3>)
    ensures
        strictly_sorted(sort_unique(s)),
    decreases s.len(),
{
    if s.len() > 0 {
        lemma_sort_unique_sorted(s.drop_last());
        lemma_insert_sorted_sorted(sort_unique(s.drop_last()), s.last());
    }
}

/// When a triangle touches the plane, its intersection points
/// are exactly the distinct points that its edges contribute, in strictly
/// increasing lexicographic order.
pub proof fn lemma_intersection_points_sorted(t: Triangle, pz: i64)
    ensures
        strictly_sorted(intersection_points(t, pz)),
        touches(t, pz) ==> forall|x: Point3|
            #[trigger] intersection_points(t, pz).contains(x) <==> raw_points(t, pz).contains(x),
{
    lemma_sort_unique_sorted(raw_points(t, pz));
    lemma_sort_unique_subset(raw_points(t, pz));
    lemma_sort_unique_superset(raw_points(t, pz));
}

} // verus!

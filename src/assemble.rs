//! Stitching a plane's segments into closed polygon loops.

use vstd::prelude::*;
use crate::geometry::{key_of, point_in_range, point_to_key, Point3, PointKey};
use crate::intersect::Segment;

verus! {

/// Some segment joins the keys of `p` and `q`, in either direction.
pub open spec fn connects(segs: Seq<Segment>, p: Point3, q: Point3) -> bool {
    exists|j: int|
        0 <= j < segs.len() && ((key_of(#[trigger] segs[j].0) == key_of(p) && key_of(segs[j].1)
            == key_of(q)) || (key_of(segs[j].0) == key_of(q) && key_of(segs[j].1) == key_of(p)))
}

/// `p` is an endpoint of some segment.
pub open spec fn is_endpoint(segs: Seq<Segment>, p: Point3) -> bool {
    exists|j: int| 0 <= j < segs.len() && (#[trigger] segs[j].0 == p || segs[j].1 == p)
}

/// `l` is a closed loop of the segment graph: at least three points, each an
/// endpoint of a segment, each joined to the next, and the last to the first.
pub open spec fn is_loop(segs: Seq<Segment>, l: Seq<Point3>) -> bool {
    &&& l.len() >= 3
    &&& forall|i: int| 0 <= i < l.len() ==> is_endpoint(segs, #[trigger] l[i])
    &&& forall|i: int| 0 <= i < l.len() - 1 ==> connects(segs, #[trigger] l[i], l[i + 1])
    &&& connects(segs, l.last(), l[0])
}

/// The node graph built from the segments: one node per distinct key, with
/// the first point seen for it, and one directed edge each way per segment.
pub open spec fn graph_wf(
    segs: Seq<Segment>,
    keys: Seq<PointKey>,
    reps: Seq<Point3>,
    edges: Seq<(usize, usize)>,
) -> bool {
    &&& keys.len() == reps.len()
    &&& forall|n: int|
        0 <= n < keys.len() ==> key_of(#[trigger] reps[n]) == keys[n] && is_endpoint(
            segs,
            reps[n],
        )
    &&& forall|e: int|
        0 <= e < edges.len() ==> (#[trigger] edges[e]).0 < keys.len() && edges[e].1 < keys.len()
            && connects(segs, reps[edges[e].0 as int], reps[edges[e].1 as int])
}

/// Index of the first node with key `k`; `keys.len()` when there is none.
pub open spec fn find_first(keys: Seq<PointKey>, k: PointKey) -> int
    decreases keys.len(),
{
    if keys.len() == 0 {
        0
    } else {
        let f = find_first(keys.drop_last(), k);
        if f < keys.len() - 1 {
            f
        } else if keys.last() == k {
            keys.len() - 1
        } else {
            keys.len() as int
        }
    }
}

proof fn lemma_find_first(keys: Seq<PointKey>, k: PointKey)
    ensures
        0 <= find_first(keys, k) <= keys.len(),
        forall|j: int| 0 <= j < find_first(keys, k) ==> keys[j] != k,
        find_first(keys, k) < keys.len() ==> keys[find_first(keys, k)] == k,
    decreases keys.len(),
{
    if keys.len() > 0 {
        let init = keys.drop_last();
        lemma_find_first(init, k);
        assert forall|j: int| 0 <= j < find_first(keys, k) implies keys[j] != k by {
            if j < init.len() {
                assert(keys[j] == init[j]);
            }
        }
        if find_first(init, k) < init.len() {
            assert(keys[find_first(init, k)] == init[find_first(init, k)]);
        }
    }
}

/// Adds a node for `p`'s key unless one exists; the node's index and the new
/// key and representative lists.
pub open spec fn add_node(keys: Seq<PointKey>, reps: Seq<Point3>, p: Point3) -> (int, Seq<PointKey>, Seq<Point3>) {
    let f = find_first(keys, key_of(p));
    if f < keys.len() {
        (f, keys, reps)
    } else {
        (f, keys.push(key_of(p)), reps.push(p))
    }
}

/// The node graph of the segments: keys in order of first appearance, the
/// first point seen for each, and a directed edge each way per segment.
pub open spec fn graph_of(segs: Seq<Segment>) -> (Seq<PointKey>, Seq<Point3>, Seq<(usize, usize)>)
    decreases segs.len(),
{
    if segs.len() == 0 {
        (seq![], seq![], seq![])
    } else {
        let g = graph_of(segs.drop_last());
        let s = segs.last();
        let na = add_node(g.0, g.1, s.0);
        let nb = add_node(na.1, na.2, s.1);
        (nb.1, nb.2, g.2.push((na.0 as usize, nb.0 as usize)).push((nb.0 as usize, na.0 as usize)))
    }
}

/// The node of `key`, added with representative `p` when there is none yet.
fn node_of(keys: &mut Vec<PointKey>, reps: &mut Vec<Point3>, p: Point3) -> (r: usize)
    requires
        old(keys)@.len() == old(reps)@.len(),
    ensures
        r < final(keys)@.len(),
        final(keys)@[r as int] == key_of(p),
        final(keys)@.len() == final(reps)@.len(),
        old(keys)@.len() <= final(keys)@.len() <= old(keys)@.len() + 1,
        final(keys)@.len() > old(keys)@.len() ==> final(reps)@[r as int] == p,
        final(keys)@.len() > old(keys)@.len() ==> r == old(keys)@.len(),
        forall|j: int| 0 <= j < old(keys)@.len() ==> #[trigger] final(keys)@[j] == old(keys)@[j],
        forall|j: int| 0 <= j < old(reps)@.len() ==> #[trigger] final(reps)@[j] == old(reps)@[j],
        (r as int, final(keys)@, final(reps)@) == add_node(old(keys)@, old(reps)@, p),
{
    let key = point_to_key(&p);
    proof {
        lemma_find_first(keys@, key);
    }
    let mut n: usize = 0;
    while n < keys.len()
        invariant
            0 <= n <= keys.len(),
            keys@ == old(keys)@,
            reps@ == old(reps)@,
            keys@.len() == reps@.len(),
            key == key_of(p),
            forall|j: int| 0 <= j < n ==> keys@[j] != key,
            0 <= find_first(keys@, key) <= keys@.len(),
            forall|j: int| 0 <= j < find_first(keys@, key) ==> keys@[j] != key,
            find_first(keys@, key) < keys@.len() ==> keys@[find_first(keys@, key)] == key,
        decreases keys.len() - n,
    {
        if keys[n].0 == key.0 && keys[n].1 == key.1 {
            assert(keys@[n as int] == key);
            return n;
        }
        n = n + 1;
    }
    keys.push(key);
    reps.push(p);
    n
}

/// Whether the node pair `(u, v)` has been walked, in either direction.
fn was_visited(visited: &Vec<(usize, usize)>, u: usize, v: usize) -> (r: bool)
    ensures
        r == was_walked(visited@, u, v),
{
    let mut i: usize = 0;
    while i < visited.len()
        invariant
            0 <= i <= visited.len(),
            forall|j: int| 0 <= j < i ==> !(#[trigger] visited@[j] == (u, v) || visited@[j] == (v, u)),
        decreases visited.len() - i,
    {
        let (a, b) = visited[i];
        if (a == u && b == v) || (a == v && b == u) {
            return true;
        }
        i = i + 1;
    }
    false
}

pub open spec fn was_walked(visited: Seq<(usize, usize)>, u: usize, v: usize) -> bool {
    exists|i: int| 0 <= i < visited.len() && (#[trigger] visited[i] == (u, v) || visited[i] == (v, u))
}

/// The first neighbour of `current`, in edge order from edge `e` on, other
/// than `prev` and not reached over a walked node pair.
pub open spec fn next_from(
    edges: Seq<(usize, usize)>,
    visited: Seq<(usize, usize)>,
    current: usize,
    prev: usize,
    e: int,
) -> Option<usize>
    decreases edges.len() - e,
{
    if e < 0 || e >= edges.len() {
        None
    } else if edges[e].0 == current && edges[e].1 != prev && !was_walked(visited, current, edges[e].1) {
        Some(edges[e].1)
    } else {
        next_from(edges, visited, current, prev, e + 1)
    }
}

fn next_step(edges: &Vec<(usize, usize)>, visited: &Vec<(usize, usize)>, current: usize, prev: usize) -> (r: Option<usize>)
    ensures
        r == next_from(edges@, visited@, current, prev, 0),
        r matches Some(nb) ==> exists|e: int| 0 <= e < edges@.len() && #[trigger] edges@[e] == (current, nb),
{
    let mut e: usize = 0;
    while e < edges.len()
        invariant
            0 <= e <= edges.len(),
            next_from(edges@, visited@, current, prev, 0) == next_from(edges@, visited@, current, prev, e as int),
        decreases edges.len() - e,
    {
        let (from, to) = edges[e];
        if from == current && to != prev && !was_visited(visited, current, to) {
            assert(edges@[e as int] == (current, to));
            return Some(to);
        }
        e = e + 1;
    }
    None
}

/// Builds the node graph of the segments.
fn build_graph(segments: &Vec<Segment>) -> (r: (Vec<PointKey>, Vec<Point3>, Vec<(usize, usize)>))
    ensures
        graph_wf(segments@, r.0@, r.1@, r.2@),
        (r.0@, r.1@, r.2@) == graph_of(segments@),
        segments@.len() == 0 ==> r.2@.len() == 0,
{
    let mut keys: Vec<PointKey> = Vec::new();
    let mut reps: Vec<Point3> = Vec::new();
    let mut edges: Vec<(usize, usize)> = Vec::new();
    let mut i: usize = 0;
    while i < segments.len()
        invariant
            0 <= i <= segments.len(),
            graph_wf(segments@, keys@, reps@, edges@),
            (keys@, reps@, edges@) == graph_of(segments@.take(i as int)),
            i == 0 ==> edges@.len() == 0,
        decreases segments.len() - i,
    {
        let (start, end) = segments[i];
        let ghost keys0 = keys@;
        let ghost reps0 = reps@;
        let a = node_of(&mut keys, &mut reps, start);
        let ghost keys1 = keys@;
        let ghost reps1 = reps@;
        let b = node_of(&mut keys, &mut reps, end);
        proof {
            assert(is_endpoint(segments@, start)) by {
                assert(segments@[i as int].0 == start);
            }
            assert(is_endpoint(segments@, end)) by {
                assert(segments@[i as int].0 == start);
            }
            assert forall|n: int| 0 <= n < keys@.len() implies key_of(#[trigger] reps@[n]) == keys@[n]
                && is_endpoint(segments@, reps@[n]) by {
                if n < keys1.len() {
                    assert(keys@[n] == keys1[n]);
                    assert(reps@[n] == reps1[n]);
                    if n < keys0.len() {
                        assert(keys1[n] == keys0[n]);
                        assert(reps1[n] == reps0[n]);
                    }
                }
            }
            assert(reps@[a as int] == reps1[a as int]);
            assert(key_of(reps@[a as int]) == key_of(start));
            assert(key_of(reps@[b as int]) == key_of(end));
            assert(connects(segments@, reps@[a as int], reps@[b as int])) by {
                assert(key_of(segments@[i as int].0) == key_of(reps@[a as int]));
            }
            assert(connects(segments@, reps@[b as int], reps@[a as int])) by {
                assert(key_of(segments@[i as int].0) == key_of(reps@[a as int]));
            }
            assert forall|e: int| 0 <= e < edges@.len() implies (#[trigger] edges@[e]).0
                < keys@.len() && edges@[e].1 < keys@.len() && connects(
                segments@,
                reps@[edges@[e].0 as int],
                reps@[edges@[e].1 as int],
            ) by {
                let u = edges@[e].0 as int;
                let v = edges@[e].1 as int;
                assert(reps@[u] == reps1[u]);
                assert(reps@[v] == reps1[v]);
                assert(reps1[u] == reps0[u]);
                assert(reps1[v] == reps0[v]);
            }
        }
        edges.push((a, b));
        edges.push((b, a));
        proof {
            assert(segments@.take(i + 1).drop_last() =~= segments@.take(i as int));
            assert(segments@.take(i + 1).last() == segments@[i as int]);
        }
        i = i + 1;
    }
    assert(segments@.take(i as int) =~= segments@);
    (keys, reps, edges)
}

/// The points of the nodes on a walk.
fn loop_points(reps: &Vec<Point3>, path: &Vec<usize>) -> (r: Vec<Point3>)
    requires
        forall|i: int| 0 <= i < path@.len() ==> (#[trigger] path@[i]) < reps@.len(),
    ensures
        r@.len() == path@.len(),
        forall|i: int| 0 <= i < path@.len() ==> #[trigger] r@[i] == reps@[path@[i] as int],
{
    let mut r: Vec<Point3> = Vec::new();
    let mut i: usize = 0;
    while i < path.len()
        invariant
            0 <= i <= path.len(),
            forall|k: int| 0 <= k < path@.len() ==> (#[trigger] path@[k]) < reps@.len(),
            r@.len() == i,
            forall|k: int| 0 <= k < i ==> #[trigger] r@[k] == reps@[path@[k] as int],
        decreases path.len() - i,
    {
        r.push(reps[path[i]]);
        i = i + 1;
    }
    r
}

/// The rest of a walk from its current state: the walked node pairs, the
/// nodes on the path, and whether it closed.
pub open spec fn walk_rest(
    edges: Seq<(usize, usize)>,
    start: usize,
    visited: Seq<(usize, usize)>,
    path: Seq<usize>,
    current: usize,
    closed: bool,
    going: bool,
    steps: int,
) -> (Seq<(usize, usize)>, Seq<usize>, bool)
    decreases edges.len() - steps,
{
    if !(going && steps < edges.len()) || path.len() == 0 {
        (visited, path, closed)
    } else {
        let path2 = path.push(current);
        let prev = path2[path2.len() - 2];
        match next_from(edges, visited, current, prev, 0) {
            None => walk_rest(edges, start, visited, path2, current, closed, false, steps + 1),
            Some(nb) => walk_rest(
                edges,
                start,
                visited.push((current, nb)),
                path2,
                nb,
                nb == start,
                nb != start,
                steps + 1,
            ),
        }
    }
}

/// A whole walk from `start` over the edge to `next`: the walked node pairs
/// after it, and the path of its loop when it closed with three or more nodes.
pub open spec fn walk_of(
    edges: Seq<(usize, usize)>,
    visited: Seq<(usize, usize)>,
    start: usize,
    next: usize,
) -> (Seq<(usize, usize)>, Option<Seq<usize>>) {
    let w = walk_rest(edges, start, visited.push((start, next)), seq![start], next, false, true, 0);
    (w.0, if w.2 && w.1.len() >= 3 { Some(w.1) } else { None })
}

pub open spec fn points_of(reps: Seq<Point3>, path: Seq<usize>) -> Seq<Point3> {
    Seq::new(path.len(), |i: int| reps[path[i] as int])
}

/// Walks from `start` over the edge to `next`, at each node taking the first
/// unwalked edge that does not lead straight back, until no such edge is left
/// (an open chain: `None`) or the walk is back at `start` (a closed loop,
/// kept when it has at least three nodes).
fn walk(
    segments: &Vec<Segment>,
    keys: &Vec<PointKey>,
    reps: &Vec<Point3>,
    edges: &Vec<(usize, usize)>,
    visited: &mut Vec<(usize, usize)>,
    start: usize,
    next: usize,
) -> (r: Option<Vec<Point3>>)
    requires
        graph_wf(segments@, keys@, reps@, edges@),
        exists|e: int| 0 <= e < edges@.len() && #[trigger] edges@[e] == (start, next),
    ensures
        r matches Some(l) ==> is_loop(segments@, l@),
        final(visited)@ == walk_of(edges@, old(visited)@, start, next).0,
        r is Some <==> walk_of(edges@, old(visited)@, start, next).1 is Some,
        r matches Some(l) ==> l@ == points_of(reps@, walk_of(edges@, old(visited)@, start, next).1->0),
{
    let ghost segs = segments@;
    let ghost e0 = choose|e: int| 0 <= e < edges@.len() && #[trigger] edges@[e] == (start, next);
    assert(edges@[e0] == (start, next));
    visited.push((start, next));
    let mut path: Vec<usize> = Vec::new();
    path.push(start);
    let mut current: usize = next;
    let mut closed = false;
    let mut going = true;
    // Each step walks a node pair not walked before, and every node pair is
    // some segment's, so no walk takes as many steps as there are edges.
    let mut steps: usize = 0;
    let ghost whole = walk_rest(edges@, start, visited@, path@, current, closed, going, steps as int);
    assert(whole == walk_rest(edges@, start, old(visited)@.push((start, next)), seq![start], next, false, true, 0));
    while going && steps < edges.len()
        invariant
            whole == walk_rest(edges@, start, visited@, path@, current, closed, going, steps as int),
            graph_wf(segs, keys@, reps@, edges@),
            path@.len() >= 1,
            path@[0] == start,
            start < keys@.len(),
            current < keys@.len(),
            forall|i: int| 0 <= i < path@.len() ==> (#[trigger] path@[i]) < keys@.len(),
            forall|i: int|
                0 <= i < path@.len() - 1 ==> connects(
                    segs,
                    #[trigger] reps@[path@[i] as int],
                    reps@[path@[i + 1] as int],
                ),
            going || closed ==> connects(segs, reps@[path@.last() as int], reps@[current as int]),
            closed ==> current == start,
            closed ==> !going,
            steps <= edges.len(),
        decreases edges.len() - steps,
    {
        let ghost before = path@;
        path.push(current);
        proof {
            assert forall|i: int| 0 <= i < path@.len() - 1 implies connects(
                segs,
                #[trigger] reps@[path@[i] as int],
                reps@[path@[i + 1] as int],
            ) by {
                if i < before.len() - 1 {
                    assert(path@[i] == before[i] && path@[i + 1] == before[i + 1]);
                } else {
                    assert(path@[i] == before.last() && path@[i + 1] == current);
                }
            }
        }
        let prev = path[path.len() - 2];
        match next_step(edges, visited, current, prev) {
            None => {
                going = false;
            },
            Some(nb) => {
                let ghost e = choose|e: int| 0 <= e < edges@.len() && #[trigger] edges@[e] == (current, nb);
                assert(edges@[e] == (current, nb));
                visited.push((current, nb));
                current = nb;
                if nb == start {
                    closed = true;
                    going = false;
                }
            },
        }
        steps = steps + 1;
    }
    assert(whole == (visited@, path@, closed));
    if closed && path.len() >= 3 {
        let l = loop_points(reps, &path);
        assert(l@ =~= points_of(reps@, path@));
        proof {
            assert forall|i: int| 0 <= i < l@.len() implies is_endpoint(segs, #[trigger] l@[i]) by {
                assert(l@[i] == reps@[path@[i] as int]);
            }
            assert forall|i: int| 0 <= i < l@.len() - 1 implies connects(
                segs,
                #[trigger] l@[i],
                l@[i + 1],
            ) by {
                assert(l@[i] == reps@[path@[i] as int]);
                assert(l@[i + 1] == reps@[path@[i + 1] as int]);
            }
            assert(l@.last() == reps@[path@.last() as int]);
            assert(l@[0] == reps@[start as int]);
        }
        Some(l)
    } else {
        None
    }
}

/// The loops found by scanning start nodes from `start` and, at `start`,
/// edges from `e` on: every edge out of the start node whose node pair has
/// not been walked starts a walk.
pub open spec fn scan(
    edges: Seq<(usize, usize)>,
    reps: Seq<Point3>,
    n: int,
    visited: Seq<(usize, usize)>,
    polys: Seq<Seq<Point3>>,
    start: int,
    e: int,
) -> Seq<Seq<Point3>>
    decreases n - start, edges.len() - e,
{
    if start < 0 || start >= n {
        polys
    } else if e < 0 || e >= edges.len() {
        scan(edges, reps, n, visited, polys, start + 1, 0)
    } else if edges[e].0 == start as usize && !was_walked(visited, start as usize, edges[e].1) {
        let w = walk_of(edges, visited, start as usize, edges[e].1);
        let polys2 = match w.1 {
            Some(p) => polys.push(points_of(reps, p)),
            None => polys,
        };
        scan(edges, reps, n, w.0, polys2, start, e + 1)
    } else {
        scan(edges, reps, n, visited, polys, start, e + 1)
    }
}

/// The loops that the assembler finds in the segments.
pub open spec fn assemble_spec(segs: Seq<Segment>) -> Seq<Seq<Point3>> {
    let g = graph_of(segs);
    scan(g.2, g.1, g.0.len() as int, seq![], seq![], 0, 0)
}

pub open spec fn loop_views(v: Seq<Vec<Point3>>) -> Seq<Seq<Point3>> {
    Seq::new(v.len(), |j: int| v[j]@)
}

/// Stitches the segments of one plane into closed polygon loops: nodes are
/// the segments' quantised endpoint keys, each with the first point seen for
/// it; every edge not yet walked starts a walk, and the walks that close
/// become loops, in the order of their start nodes. Open chains are dropped.
pub fn assemble_polygons(segments: &Vec<Segment>) -> (r: Vec<Vec<Point3>>)
    ensures
        loop_views(r@) == assemble_spec(segments@),
        forall|j: int| 0 <= j < r@.len() ==> is_loop(segments@, #[trigger] r@[j]@),
        segments@.len() == 0 ==> r@.len() == 0,
{
    let (keys, reps, edges) = build_graph(segments);
    let mut polygons: Vec<Vec<Point3>> = Vec::new();
    let mut visited: Vec<(usize, usize)> = Vec::new();
    let mut start: usize = 0;
    let ghost total = scan(edges@, reps@, keys@.len() as int, visited@, loop_views(polygons@), 0, 0);
    assert(loop_views(polygons@) =~= seq![]);
    while start < keys.len()
        invariant
            total == scan(edges@, reps@, keys@.len() as int, visited@, loop_views(polygons@), start as int, 0),
            start <= keys@.len(),
            graph_wf(segments@, keys@, reps@, edges@),
            segments@.len() == 0 ==> edges@.len() == 0,
            forall|j: int| 0 <= j < polygons@.len() ==> is_loop(segments@, #[trigger] polygons@[j]@),
            segments@.len() == 0 ==> polygons@.len() == 0,
        decreases keys.len() - start,
    {
        let mut e: usize = 0;
        while e < edges.len()
            invariant
                total == scan(edges@, reps@, keys@.len() as int, visited@, loop_views(polygons@), start as int, e as int),
                start < keys@.len(),
                e <= edges@.len(),
                graph_wf(segments@, keys@, reps@, edges@),
                segments@.len() == 0 ==> edges@.len() == 0,
                forall|j: int| 0 <= j < polygons@.len() ==> is_loop(segments@, #[trigger] polygons@[j]@),
                segments@.len() == 0 ==> polygons@.len() == 0,
            decreases edges.len() - e,
        {
            let (from, next) = edges[e];
            if from == start && !was_visited(&visited, start, next) {
                assert(edges@[e as int] == (start, next));
                let ghost before = loop_views(polygons@);
                match walk(segments, &keys, &reps, &edges, &mut visited, start, next) {
                    Some(l) => {
                        polygons.push(l);
                        assert(loop_views(polygons@) =~= before.push(l@));
                    },
                    None => {},
                }
            }
            e = e + 1;
        }
        start = start + 1;
    }
    polygons
}

/// Twice the signed area enclosed by the loop `l` (shoelace formula over its
/// x and y, closing edge included), summed over its first `n` edges.
pub open spec fn shoelace(l: Seq<Point3>, n: int) -> int
    decreases n,
{
    if n <= 0 {
        0
    } else {
        let i = n - 1;
        let j = if i + 1 == l.len() { 0 } else { i + 1 };
        shoelace(l, i) + (l[i].x * l[j].y - l[j].x * l[i].y)
    }
}

/// Twice the area enclosed by a loop of points in range, by the shoelace
/// formula; twice so that it is an exact integer in square grid units.
pub fn polygon_double_area(polygon: &Vec<Point3>) -> (r: u128)
    requires
        polygon@.len() < 0x1_0000_0000,
        forall|i: int| 0 <= i < polygon@.len() ==> point_in_range(#[trigger] polygon@[i]),
    ensures
        r == crate::intersect::abs(shoelace(polygon@, polygon@.len() as int)),
{
    let n = polygon.len();
    let mut sum: i128 = 0;
    let mut i: usize = 0;
    while i < n
        invariant
            n == polygon@.len(),
            n < 0x1_0000_0000,
            0 <= i <= n,
            forall|k: int| 0 <= k < polygon@.len() ==> point_in_range(#[trigger] polygon@[k]),
            sum == shoelace(polygon@, i as int),
            -(i as int) * 0x8_0000_0000_0000_0000_0000 <= sum <= (i as int) * 0x8_0000_0000_0000_0000_0000,
        decreases n - i,
    {
        let j: usize = if i + 1 == n { 0 } else { i + 1 };
        let p = polygon[i];
        let q = polygon[j];
        proof {
            assert(point_in_range(p) && point_in_range(q));
            assert(-0x4_0000_0000_0000_0000_0000 <= p.x * q.y <= 0x4_0000_0000_0000_0000_0000) by (nonlinear_arith)
                requires
                    -0x100_0000_0000 <= p.x <= 0x100_0000_0000,
                    -0x100_0000_0000 <= q.y <= 0x100_0000_0000,
            ;
            assert(-0x4_0000_0000_0000_0000_0000 <= q.x * p.y <= 0x4_0000_0000_0000_0000_0000) by (nonlinear_arith)
                requires
                    -0x100_0000_0000 <= q.x <= 0x100_0000_0000,
                    -0x100_0000_0000 <= p.y <= 0x100_0000_0000,
            ;
            assert((i as int + 1) * 0x8_0000_0000_0000_0000_0000 == (i as int) * 0x8_0000_0000_0000_0000_0000 + 0x8_0000_0000_0000_0000_0000);
        }
        let cross: i128 = (p.x as i128) * (q.y as i128) - (q.x as i128) * (p.y as i128);
        sum = sum + cross;
        i = i + 1;
    }
    if sum < 0 {
        (-sum) as u128
    } else {
        sum as u128
    }
}

} // verus!

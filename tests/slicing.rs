use slicer::assemble::{assemble_polygons, polygon_double_area};
use slicer::geometry::point_to_key;
use slicer::intersect::{collect_intersection_segments, intersect_triangle_with_plane};
use slicer::raster::{rasterize_loop, PixelMap};
use slicer::schedule::plane_heights;
use slicer::{CPUSlicer, MaskImage, Point3, SliceError, Triangle, GRID_UNITS_PER_MM};

const U: i64 = GRID_UNITS_PER_MM;

fn p(x: i64, y: i64, z: i64) -> Point3 {
    Point3::new(x, y, z)
}

fn tri(a: Point3, b: Point3, c: Point3) -> Triangle {
    Triangle::new(a, b, c, p(0, 0, 0))
}

/// An axis-aligned cube of side `2 * h` centred on the origin, two triangles a face.
fn cube(h: i64) -> Vec<Triangle> {
    let v = |x: i64, y: i64, z: i64| p(x * h, y * h, z * h);
    let faces = [
        [v(-1, -1, -1), v(1, -1, -1), v(1, 1, -1), v(-1, 1, -1)],
        [v(-1, -1, 1), v(1, -1, 1), v(1, 1, 1), v(-1, 1, 1)],
        [v(1, -1, -1), v(1, 1, -1), v(1, 1, 1), v(1, -1, 1)],
        [v(-1, -1, -1), v(-1, 1, -1), v(-1, 1, 1), v(-1, -1, 1)],
        [v(-1, 1, -1), v(1, 1, -1), v(1, 1, 1), v(-1, 1, 1)],
        [v(-1, -1, -1), v(1, -1, -1), v(1, -1, 1), v(-1, -1, 1)],
    ];
    let mut out = Vec::new();
    for f in faces.iter() {
        out.push(tri(f[0], f[1], f[2]));
        out.push(tri(f[0], f[2], f[3]));
    }
    out
}

fn slicer_100() -> CPUSlicer {
    CPUSlicer::new(100, 100, 5 * U / 2, 100 * U, 100 * U).unwrap()
}

#[test]
fn schedule_starts_at_min_and_steps_by_thickness() {
    let hs = plane_heights(0, 10 * U, 5 * U / 2);
    assert_eq!(hs, vec![0, 5 * U / 2, 5 * U, 15 * U / 2, 10 * U]);
}

#[test]
fn schedule_without_landing_on_max() {
    assert_eq!(plane_heights(-3, 4, 3), vec![-3, 0, 3]);
    assert_eq!(plane_heights(7, 7, 3), vec![7]);
}

#[test]
fn schedule_of_empty_range_is_empty() {
    assert_eq!(plane_heights(1, 0, 5), Vec::<i64>::new());
}

#[test]
fn cube_cross_section_is_one_square_loop() {
    let tris = cube(5 * U);
    let segs = collect_intersection_segments(&tris, 0);
    assert_eq!(segs.len(), 8);
    let loops = assemble_polygons(&segs);
    assert_eq!(loops.len(), 1);
    // area 100 square model units, doubled, in square grid units
    assert_eq!(polygon_double_area(&loops[0]), 200 * (U as u128) * (U as u128));
    for q in loops[0].iter() {
        assert_eq!(q.z, 0);
        assert!(q.x.abs() == 5 * U || q.y.abs() == 5 * U);
    }
}

#[test]
fn plane_outside_model_cuts_nothing() {
    let tris = cube(5 * U);
    assert!(collect_intersection_segments(&tris, 5 * U + 2).is_empty());
    assert!(collect_intersection_segments(&tris, -5 * U - 2).is_empty());
    assert!(collect_intersection_segments(&tris, 100 * U).is_empty());
}

#[test]
fn keys_collapse_only_below_epsilon() {
    let a = p(3, -4, 10);
    assert_eq!(point_to_key(&a), point_to_key(&p(3, -4, 99)));
    assert_ne!(point_to_key(&a), point_to_key(&p(4, -4, 10)));
    assert_ne!(point_to_key(&a), point_to_key(&p(3, -5, 10)));
}

#[test]
fn shared_edge_gives_identical_points() {
    // two triangles sharing the edge from (0,0,-7) to (10,3,5), listed in opposite directions
    let e0 = p(0, 0, -7);
    let e1 = p(10, 3, 5);
    let t1 = tri(e0, e1, p(-5, 9, -7));
    let t2 = tri(e1, e0, p(12, -8, 5));
    let a = intersect_triangle_with_plane(&t1, 0);
    let b = intersect_triangle_with_plane(&t2, 0);
    assert_eq!(a.len(), 2);
    assert_eq!(b.len(), 2);
    let shared: Vec<&Point3> = a.iter().filter(|x| b.contains(x)).collect();
    assert_eq!(shared.len(), 1);
    assert_eq!(point_to_key(shared[0]), point_to_key(&p(6, 2, 0)));
}

#[test]
fn crossing_point_is_rounded_interpolation() {
    // edge a-b: a + (b - a) / 3 = (10, 30, 0) exactly;
    // edge b-c, measured from c: c + (b - c) / 3 = (10, 50 + 13.33.., 0), rounded to (10, 63, 0)
    let t = tri(p(0, 0, -10), p(30, 90, 20), p(0, 50, -10));
    let pts = intersect_triangle_with_plane(&t, 0);
    assert_eq!(pts, vec![p(10, 30, 0), p(10, 63, 0)]);
    // a half rounds upwards: from (0,0,-1) to (1,1,1) the crossing is at 0.5
    let h = tri(p(0, 0, -2), p(1, 1, 2), p(0, 5, -2));
    assert_eq!(intersect_triangle_with_plane(&h, 0), vec![p(1, 1, 0), p(1, 3, 0)]);
}

#[test]
fn triangle_with_vertex_on_plane() {
    let t = tri(p(0, 0, 0), p(10, 0, 10), p(10, 10, -10));
    let pts = intersect_triangle_with_plane(&t, 0);
    assert_eq!(pts, vec![p(0, 0, 0), p(10, 5, 0)]);
}

#[test]
fn triangle_in_plane_gives_all_vertices() {
    let flat = tri(p(0, 0, 5), p(10, 0, 5), p(0, 10, 5));
    let all = vec![p(0, 0, 5), p(0, 10, 5), p(10, 0, 5)];
    assert_eq!(intersect_triangle_with_plane(&flat, 5), all);
    // within the tolerance the vertices still count as on the plane
    assert_eq!(intersect_triangle_with_plane(&flat, 6), all);
    // three points make no segment
    assert!(collect_intersection_segments(&vec![flat], 5).is_empty());
}

#[test]
fn triangle_on_one_side_gives_nothing() {
    let flat = tri(p(0, 0, 5), p(10, 0, 5), p(0, 10, 5));
    assert!(intersect_triangle_with_plane(&flat, 7).is_empty());
    assert!(intersect_triangle_with_plane(&flat, 0).is_empty());
}

#[test]
fn edge_in_plane_gives_its_endpoints() {
    let t = tri(p(0, 0, 0), p(U, 0, 0), p(0, U, U));
    assert_eq!(intersect_triangle_with_plane(&t, 0), vec![p(0, 0, 0), p(U, 0, 0)]);
    let segs = collect_intersection_segments(&vec![t], 0);
    assert_eq!(segs, vec![(p(0, 0, 0), p(U, 0, 0))]);
}

#[test]
fn vertex_alone_on_plane_gives_one_point() {
    let t = tri(p(0, 0, 0), p(U, 0, U), p(0, U, U));
    assert_eq!(intersect_triangle_with_plane(&t, 0), vec![p(0, 0, 0)]);
}

#[test]
fn copies_one_key_tolerance_apart_do_not_join() {
    // the same triangle loop, but one copy of the corner (10, 10) is one grid
    // unit off in x: the keys differ, the chain stays open, nothing closes
    let close = vec![
        (p(0, 0, 0), p(10, 0, 0)),
        (p(10, 10, 0), p(0, 0, 0)),
        (p(10, 0, 0), p(10, 10, 0)),
    ];
    let apart = vec![
        (p(0, 0, 0), p(10, 0, 0)),
        (p(11, 10, 0), p(0, 0, 0)),
        (p(10, 0, 0), p(10, 10, 0)),
    ];
    assert_eq!(assemble_polygons(&close).len(), 1);
    assert!(assemble_polygons(&apart).is_empty());
    assert_eq!(assemble_polygons(&apart), assemble_polygons(&apart));
    assert_ne!(point_to_key(&p(11, 10, 0)), point_to_key(&p(10, 10, 0)));
    // copies that differ only in height, below the key tolerance in x and y, do join
    let lifted = vec![
        (p(0, 0, 0), p(10, 0, 0)),
        (p(10, 10, 1), p(0, 0, 0)),
        (p(10, 0, 0), p(10, 10, 0)),
    ];
    assert_eq!(assemble_polygons(&lifted).len(), 1);
}

#[test]
fn open_chain_is_dropped() {
    let segs = vec![(p(0, 0, 0), p(10, 0, 0)), (p(10, 0, 0), p(10, 10, 0))];
    assert!(assemble_polygons(&segs).is_empty());
    assert!(assemble_polygons(&Vec::new()).is_empty());
}

#[test]
fn triangle_loop_is_closed() {
    let segs = vec![
        (p(0, 0, 0), p(10, 0, 0)),
        (p(10, 10, 0), p(0, 0, 0)),
        (p(10, 0, 0), p(10, 10, 0)),
    ];
    let loops = assemble_polygons(&segs);
    assert_eq!(loops, vec![vec![p(0, 0, 0), p(10, 0, 0), p(10, 10, 0)]]);
    assert_eq!(polygon_double_area(&loops[0]), 100);
}

#[test]
fn bounding_box_and_z_range() {
    let tris = vec![tri(p(1, 2, 3), p(-4, 5, -6), p(7, -8, 9))];
    let bb = CPUSlicer::compute_bounding_box(&tris).unwrap();
    assert_eq!(bb.min, p(-4, -8, -6));
    assert_eq!(bb.max, p(7, 5, 9));
    assert_eq!(CPUSlicer::z_range(&tris), Some((-6, 9)));
    assert_eq!(CPUSlicer::compute_bounding_box(&Vec::new()), None);
    assert_eq!(CPUSlicer::z_range(&Vec::new()), None);
}

#[test]
fn pixel_mapping_uses_smaller_scale_and_centres() {
    let s = CPUSlicer::new(100, 50, U, 200 * U, 50 * U).unwrap();
    let m = s.pixel_map();
    assert_eq!(m.model_to_image_coords(&p(10 * U, -10 * U, 0)), (55, 20));
    assert_eq!(m.model_to_image_coords(&p(0, 0, 0)), (50, 25));
    assert_eq!(m.model_to_image_coords(&p(U, U, 0)), (51, 26));
}

#[test]
fn pixels_on_the_widest_canvas_are_not_clamped() {
    // one pixel per grid unit on a canvas 2^29 pixels wide
    let s = CPUSlicer::new(0x2000_0000, 1, 1, 0x2000_0000, 1).unwrap();
    let m = s.pixel_map();
    assert_eq!(m.model_to_image_coords(&p(0x0800_0000, 0, 0)), (0x1800_0000, 1));
    assert_eq!(m.model_to_image_coords(&p(0x0FFF_FFFF, 0, 0)), (0x1FFF_FFFF, 1));
    assert_eq!(m.model_to_image_coords(&p(-0x1000_0000, 0, 0)), (0, 1));
    // beyond the canvas the coordinate is clamped, still off the canvas
    assert_eq!(m.model_to_image_coords(&p(0x4000_0000, 0, 0)), (0x2000_0000, 1));
}

#[test]
fn pixel_halves_round_away_from_zero() {
    let m = slicer_100().pixel_map();
    assert_eq!(m.model_to_image_coords(&p(-50 * U - U / 2, 0, 0)), (-1, 50));
    assert_eq!(m.model_to_image_coords(&p(-49 * U - U / 2, 0, 0)), (1, 50));
    assert_eq!(m.model_to_image_coords(&p(U / 2, -50 * U - 3 * U / 2, 0)), (51, -2));
}

#[test]
fn degenerate_loop_draws_nothing() {
    let s = slicer_100();
    let m = s.pixel_map();
    let mut img = MaskImage::blank(100, 100);
    // three points within one pixel of each other
    let l = vec![p(0, 0, 0), p(100, 0, 0), p(0, 100, 0)];
    rasterize_loop(&m, &mut img, &l);
    assert!(img.pixels.iter().all(|&v| v == 0));
    let two = vec![p(0, 0, 0), p(20 * U, 0, 0), p(20 * U, 0, 0)];
    rasterize_loop(&m, &mut img, &two);
    assert!(img.pixels.iter().all(|&v| v == 0));
}

#[test]
fn square_loop_is_filled() {
    let s = slicer_100();
    let m = s.pixel_map();
    let mut img = MaskImage::blank(100, 100);
    let l = vec![p(-10 * U, -10 * U, 0), p(10 * U, -10 * U, 0), p(10 * U, 10 * U, 0), p(-10 * U, 10 * U, 0)];
    rasterize_loop(&m, &mut img, &l);
    assert_eq!(img.get(50, 50), 255);
    assert_eq!(img.get(45, 55), 255);
    assert_eq!(img.get(10, 10), 0);
    assert_eq!(img.get(70, 50), 0);
    assert_eq!(img.pixels.len(), 100 * 100);
}

#[test]
fn loops_fill_additively_in_any_order() {
    let m = slicer_100().pixel_map();
    let sq = |x0: i64, y0: i64, s: i64| {
        vec![p(x0, y0, 0), p(x0 + s, y0, 0), p(x0 + s, y0 + s, 0), p(x0, y0 + s, 0)]
    };
    let a = sq(-20 * U, -20 * U, 15 * U);
    let b = sq(-10 * U, -10 * U, 25 * U);
    let mut ab = MaskImage::blank(100, 100);
    rasterize_loop(&m, &mut ab, &a);
    rasterize_loop(&m, &mut ab, &b);
    let mut ba = MaskImage::blank(100, 100);
    rasterize_loop(&m, &mut ba, &b);
    rasterize_loop(&m, &mut ba, &a);
    assert_eq!(ab, ba);
    assert_eq!(ab.get(32, 32), 255);
    assert_eq!(ab.get(45, 45), 255);
    assert_eq!(ab.get(60, 60), 255);
    assert_eq!(ab.get(32, 60), 0);
}

#[test]
fn cube_slices_into_five_layers() {
    let s = slicer_100();
    let layers = s.generate_slice_images(&cube(5 * U)).unwrap();
    let zs: Vec<i64> = layers.iter().map(|l| l.z).collect();
    // the bottom and top planes close a loop from the side faces' in-plane edges
    assert_eq!(zs, vec![-5 * U, -5 * U / 2, 0, 5 * U / 2, 5 * U]);
    for l in layers.iter() {
        assert_eq!((l.image.width, l.image.height), (100, 100));
        assert_eq!(l.image.get(50, 50), 255);
        assert_eq!(l.image.get(46, 53), 255);
        assert_eq!(l.image.get(20, 20), 0);
        assert_eq!(l.image.get(50, 70), 0);
        assert!(l.image.pixels.iter().all(|&v| v == 0 || v == 255));
    }
}

#[test]
fn plane_missing_the_model_gives_no_layer() {
    // a slab from 0 to 1 mm sliced every 3 mm: planes at 0 only; with a
    // second slab far above, the planes in the gap give no layer
    let s = CPUSlicer::new(100, 100, 3 * U, 100 * U, 100 * U).unwrap();
    let mut model = cube(U / 2);
    let mut high = cube(U / 2);
    for t in high.iter_mut() {
        for v in [&mut t.a, &mut t.b, &mut t.c] {
            v.z += 12 * U;
        }
    }
    model.append(&mut high);
    let layers = s.generate_slice_images(&model).unwrap();
    let zs: Vec<i64> = layers.iter().map(|l| l.z).collect();
    assert_eq!(zs, vec![-U / 2, 23 * U / 2]);
}

#[test]
fn empty_model_gives_no_layers() {
    let s = slicer_100();
    assert_eq!(s.generate_slice_images(&Vec::new()), Ok(Vec::new()));
    assert_eq!(s.slice_bodies(&Vec::new()), Ok(Vec::new()));
}

#[test]
fn slicing_twice_is_identical() {
    let s = slicer_100();
    let mut model = cube(5 * U);
    model.push(tri(p(20 * U, 20 * U, -3 * U), p(30 * U, 20 * U, 4 * U), p(20 * U, 30 * U, 1)));
    let a = s.generate_slice_images(&model).unwrap();
    let b = s.generate_slice_images(&model).unwrap();
    assert_eq!(a, b);
}

#[test]
fn bodies_are_sliced_together() {
    let s = slicer_100();
    let mut shifted = cube(5 * U);
    for t in shifted.iter_mut() {
        for v in [&mut t.a, &mut t.b, &mut t.c] {
            v.x += 20 * U;
            v.z += 10 * U;
        }
    }
    let layers = s.slice_bodies(&vec![cube(5 * U), shifted]).unwrap();
    let zs: Vec<i64> = layers.iter().map(|l| l.z).collect();
    let expected: Vec<i64> = (0..9).map(|k| -5 * U + k * 5 * U / 2).collect();
    assert_eq!(zs, expected);
    assert_eq!(layers[1].image.get(50, 50), 255);
    assert_eq!(layers[1].image.get(70, 50), 0);
    assert_eq!(layers[6].image.get(70, 50), 255);
    assert_eq!(layers[6].image.get(50, 50), 0);
}

#[test]
fn configuration_errors() {
    assert_eq!(CPUSlicer::new(0, 10, 1, 1, 1), Err(SliceError::EmptyCanvas));
    assert_eq!(CPUSlicer::new(10, 0, 1, 1, 1), Err(SliceError::EmptyCanvas));
    assert_eq!(CPUSlicer::new(10, 10, 1, 0, 1), Err(SliceError::NonPositivePhysicalSize));
    assert_eq!(CPUSlicer::new(10, 10, 1, 1, -1), Err(SliceError::NonPositivePhysicalSize));
    assert_eq!(CPUSlicer::new(10, 10, 0, 1, 1), Err(SliceError::NonPositiveThickness));
    assert_eq!(CPUSlicer::new(0x8000_0000, 1, 1, 1, 1), Err(SliceError::CanvasTooLarge));
    assert_eq!(CPUSlicer::new(0x2000_0001, 1, 1, 1, 1), Err(SliceError::CanvasTooLarge));
    assert_eq!(CPUSlicer::new(1, 0x2000_0001, 1, 1, 1), Err(SliceError::CanvasTooLarge));
    assert!(CPUSlicer::new(0x2000_0000, 1, 1, 1, 1).is_ok());
    assert_eq!(CPUSlicer::new(1, 0x8000_0000, 1, 1, 1), Err(SliceError::CanvasTooLarge));
    assert!(CPUSlicer::new(10, 10, 1, 1, 1).is_ok());
}

#[test]
fn out_of_range_vertex_is_rejected() {
    let s = slicer_100();
    let far = vec![tri(p(0, 0, 0), p(i64::MAX, 0, 1), p(0, 1, -1))];
    assert_eq!(s.generate_slice_images(&far), Err(SliceError::CoordinateOutOfRange));
}

//! The slicing pipeline: configuration, plane schedule, and one mask per
//! plane that cuts the model.

use vstd::prelude::*;
use crate::assemble::{assemble_polygons, assemble_spec, is_loop, loop_views};
use crate::geometry::{all_in_range, coord_in_range, point_in_range, triangle_in_range, Point3, Triangle};
use vstd::arithmetic::div_mod::lemma_fundamental_div_mod;
use crate::intersect::{
    collect_intersection_segments, intersection_points, lemma_no_points_no_segments,
    lemma_segments_in_range, segments_at,
};
use crate::raster::{fill_loop, is_binary, loop_cover, FILL_VALUE, rasterize_loop, MaskImage, PixelMap, PIXEL_LIMIT};
use crate::schedule::{
    is_bounding_box, lemma_bounding_box_unique, BoundingBox, lemma_box_in_range, plane_heights, plane_schedule,
    vertices_of,
};

verus! {

/// Why a slicer cannot be made, or a model cannot be sliced.
#[derive(Clone, Copy, Debug, PartialEq, Eq, Structural)]
pub enum SliceError {
    /// The canvas has no pixels along some axis.
    EmptyCanvas,
    /// The physical size of the canvas is not positive.
    NonPositivePhysicalSize,
    /// The slice thickness is not positive.
    NonPositiveThickness,
    /// The canvas is wider or taller than `PIXEL_LIMIT` pixels, or has more
    /// pixels than memory can index.
    CanvasTooLarge,
    /// Some vertex lies outside the accepted coordinate range.
    CoordinateOutOfRange,
}

/// Slicing configuration: canvas size in pixels, the physical size it shows
/// and the slice thickness, both in grid units.
#[derive(Clone, Copy, Debug, PartialEq, Eq, Structural)]
pub struct CPUSlicer {
    pub pixel_x: u32,
    pub pixel_y: u32,
    pub slice_thickness: i64,
    pub physical_x: i64,
    pub physical_y: i64,
}

/// One layer of the output: the plane's height and its mask.
#[derive(Debug, PartialEq, Eq)]
pub struct SliceLayer {
    pub z: i64,
    pub image: MaskImage,
}

/// The first configuration fault, if any, in the order that `new` checks.
pub open spec fn config_error(x: u32, y: u32, t: i64, px: i64, py: i64) -> Option<SliceError> {
    if x == 0 || y == 0 {
        Some(SliceError::EmptyCanvas)
    } else if px <= 0 || py <= 0 {
        Some(SliceError::NonPositivePhysicalSize)
    } else if t <= 0 {
        Some(SliceError::NonPositiveThickness)
    } else if x > PIXEL_LIMIT || y > PIXEL_LIMIT || x * y > usize::MAX {
        Some(SliceError::CanvasTooLarge)
    } else {
        None
    }
}

/// The canvas after filling each loop in turn.
pub open spec fn paint(m: PixelMap, pixels: Seq<u8>, loops: Seq<Seq<Point3>>) -> Seq<u8>
    decreases loops.len(),
{
    if loops.len() == 0 {
        pixels
    } else {
        fill_loop(m, paint(m, pixels, loops.drop_last()), loops.last())
    }
}

impl CPUSlicer {
    pub open spec fn wf(&self) -> bool {
        config_error(
            self.pixel_x,
            self.pixel_y,
            self.slice_thickness,
            self.physical_x,
            self.physical_y,
        ) is None
    }

    /// The single scale for both axes, the smaller of the two canvas ratios,
    /// as a fraction of pixels per grid unit.
    pub open spec fn scale(&self) -> (u32, i64) {
        if self.pixel_x * self.physical_y <= self.pixel_y * self.physical_x {
            (self.pixel_x, self.physical_x)
        } else {
            (self.pixel_y, self.physical_y)
        }
    }

    pub open spec fn pixel_map_spec(&self) -> PixelMap {
        PixelMap {
            pixel_x: self.pixel_x,
            pixel_y: self.pixel_y,
            ppm_num: self.scale().0 as i64,
            ppm_den: self.scale().1,
        }
    }

    /// A layer is sound: it lies on the plane schedule of the model's height
    /// range, the plane cuts some segment, and its mask, every pixel 0 or
    /// filled, is a blank canvas with one or more closed loops of that
    /// plane's segments filled in.
    pub open spec fn layer_ok(&self, ts: Seq<Triangle>, layer: SliceLayer) -> bool {
        &&& exists|bb: BoundingBox, i: int|
            is_bounding_box(vertices_of(ts), bb) && 0 <= i < plane_schedule(
                bb.min.z as int,
                bb.max.z as int,
                self.slice_thickness as int,
            ).len() && layer.z == #[trigger] plane_schedule(
                bb.min.z as int,
                bb.max.z as int,
                self.slice_thickness as int,
            )[i]
        &&& segments_at(ts, layer.z).len() > 0
        &&& layer.image.wf()
        &&& is_binary(layer.image.pixels@)
        &&& layer.image.width == self.pixel_x
        &&& layer.image.height == self.pixel_y
        &&& exists|loops: Seq<Seq<Point3>>|
            loops.len() > 0 && (forall|j: int|
                0 <= j < loops.len() ==> is_loop(segments_at(ts, layer.z), #[trigger] loops[j]))
                && layer.image.pixels@ == paint(self.pixel_map_spec(), blank_pixels(*self), loops)
    }

    /// The mask of the plane at `z`: `None` when the plane cuts no segment or
    /// its segments close into no loop; otherwise a blank canvas with every
    /// assembled loop filled in turn.
    pub open spec fn plane_mask(&self, ts: Seq<Triangle>, z: i64) -> Option<Seq<u8>> {
        let segs = segments_at(ts, z);
        let loops = assemble_spec(segs);
        if segs.len() == 0 || loops.len() == 0 {
            None
        } else {
            Some(paint(self.pixel_map_spec(), blank_pixels(*self), loops))
        }
    }

    /// The layers for the planes `sched`, in order: one for each plane that
    /// has a mask.
    pub open spec fn layers_for(&self, ts: Seq<Triangle>, sched: Seq<int>) -> Seq<(i64, Seq<u8>)>
        decreases sched.len(),
    {
        if sched.len() == 0 {
            seq![]
        } else {
            let rest = self.layers_for(ts, sched.drop_last());
            match self.plane_mask(ts, sched.last() as i64) {
                Some(px) => rest.push((sched.last() as i64, px)),
                None => rest,
            }
        }
    }

    /// What slicing `ts` returns: an error exactly when some vertex is out of
    /// range; otherwise sound layers in strictly ascending height, none for
    /// an empty model, and exactly the layers of the model's plane schedule.
    pub open spec fn slicing_ok(
        &self,
        ts: Seq<Triangle>,
        r: Result<Vec<SliceLayer>, SliceError>,
    ) -> bool {
        &&& r is Err <==> !all_in_range(ts)
        &&& r is Err ==> r == Err::<Vec<SliceLayer>, SliceError>(SliceError::CoordinateOutOfRange)
        &&& r matches Ok(layers) ==> {
            &&& ts.len() == 0 ==> layers@.len() == 0
            &&& forall|k: int| 0 <= k < layers@.len() ==> self.layer_ok(ts, #[trigger] layers@[k])
            &&& forall|k: int, l: int|
                0 <= k < l < layers@.len() ==> (#[trigger] layers@[k]).z < (#[trigger] layers@[l]).z
            &&& ts.len() > 0 ==> exists|bb: BoundingBox|
                is_bounding_box(vertices_of(ts), bb) && layer_views(layers@) == self.layers_for(
                    ts,
                    plane_schedule(bb.min.z as int, bb.max.z as int, self.slice_thickness as int),
                )
        }
    }

    /// A slicer for a `x` by `y` pixel canvas showing `physical_x` by
    /// `physical_y` grid units, slicing every `slice_thickness` grid units.
    pub fn new(x: u32, y: u32, slice_thickness: i64, physical_x: i64, physical_y: i64) -> (r:
        Result<CPUSlicer, SliceError>)
        ensures
            r == (match config_error(x, y, slice_thickness, physical_x, physical_y) {
                Some(e) => Err(e),
                None => Ok(
                    CPUSlicer { pixel_x: x, pixel_y: y, slice_thickness, physical_x, physical_y },
                ),
            }),
    {
        if x == 0 || y == 0 {
            return Err(SliceError::EmptyCanvas);
        }
        if physical_x <= 0 || physical_y <= 0 {
            return Err(SliceError::NonPositivePhysicalSize);
        }
        if slice_thickness <= 0 {
            return Err(SliceError::NonPositiveThickness);
        }
        assert((x as u128) * (y as u128) <= 0xffff_ffff * 0xffff_ffff) by (nonlinear_arith)
            requires
                x <= 0xffff_ffff,
                y <= 0xffff_ffff,
        ;
        if x > PIXEL_LIMIT as u32 || y > PIXEL_LIMIT as u32 || (x as u128) * (y as u128) > usize::MAX as u128 {
            return Err(SliceError::CanvasTooLarge);
        }
        Ok(CPUSlicer { pixel_x: x, pixel_y: y, slice_thickness, physical_x, physical_y })
    }

    /// The mapping from model points to pixels of this slicer's canvas.
    pub fn pixel_map(&self) -> (r: PixelMap)
        requires
            self.wf(),
        ensures
            r == self.pixel_map_spec(),
            r.wf(),
    {
        assert(0 <= (self.pixel_x as i128) * (self.physical_y as i128) <= 0xffff_ffff
            * 0x7fff_ffff_ffff_ffff) by (nonlinear_arith)
            requires
                0 <= self.pixel_x <= 0xffff_ffff,
                0 < self.physical_y <= 0x7fff_ffff_ffff_ffff,
        ;
        assert(0 <= (self.pixel_y as i128) * (self.physical_x as i128) <= 0xffff_ffff
            * 0x7fff_ffff_ffff_ffff) by (nonlinear_arith)
            requires
                0 <= self.pixel_y <= 0xffff_ffff,
                0 < self.physical_x <= 0x7fff_ffff_ffff_ffff,
        ;
        let across: i128 = (self.pixel_x as i128) * (self.physical_y as i128);
        let down: i128 = (self.pixel_y as i128) * (self.physical_x as i128);
        if across <= down {
            PixelMap {
                pixel_x: self.pixel_x,
                pixel_y: self.pixel_y,
                ppm_num: self.pixel_x as i64,
                ppm_den: self.physical_x,
            }
        } else {
            PixelMap {
                pixel_x: self.pixel_x,
                pixel_y: self.pixel_y,
                ppm_num: self.pixel_y as i64,
                ppm_den: self.physical_y,
            }
        }
    }
}

pub open spec fn layer_views(layers: Seq<SliceLayer>) -> Seq<(i64, Seq<u8>)> {
    Seq::new(layers.len(), |k: int| (layers[k].z, layers[k].image.pixels@))
}

pub open spec fn blank_pixels(s: CPUSlicer) -> Seq<u8> {
    Seq::new((s.pixel_x * s.pixel_y) as nat, |k: int| 0u8)
}

impl CPUSlicer {
    /// The mask of one plane: `None` when the plane cuts no segment or no
    /// segments close into a loop; otherwise every loop filled, in order.
    fn render_plane(&self, map: &PixelMap, triangles: &Vec<Triangle>, plane_z: i64) -> (r: Option<MaskImage>)
        requires
            self.wf(),
            *map == self.pixel_map_spec(),
            map.wf(),
            all_in_range(triangles@),
            coord_in_range(plane_z),
        ensures
            segments_at(triangles@, plane_z).len() == 0 ==> r is None,
            r is Some <==> self.plane_mask(triangles@, plane_z) is Some,
            r matches Some(img) ==> img.pixels@ == self.plane_mask(triangles@, plane_z)->0,
            r matches Some(img) ==> {
                &&& segments_at(triangles@, plane_z).len() > 0
                &&& img.wf()
                &&& is_binary(img.pixels@)
                &&& img.width == self.pixel_x
                &&& img.height == self.pixel_y
                &&& exists|loops: Seq<Seq<Point3>>|
                    loops.len() > 0 && (forall|j: int|
                        0 <= j < loops.len() ==> is_loop(
                            segments_at(triangles@, plane_z),
                            #[trigger] loops[j],
                        )) && img.pixels@ == paint(*map, blank_pixels(*self), loops)
            },
    {
        let segments = collect_intersection_segments(triangles, plane_z);
        if segments.len() == 0 {
            return None;
        }
        let polygons = assemble_polygons(&segments);
        let ghost segs = segments@;
        let ghost loops = Seq::new(polygons@.len(), |j: int| polygons@[j]@);
        assert(loops =~= loop_views(polygons@));
        if polygons.len() == 0 {
            return None;
        }
        let mut image = MaskImage::blank(self.pixel_x, self.pixel_y);
        proof {
            lemma_segments_in_range(triangles@, plane_z);
            assert(image.pixels@ =~= blank_pixels(*self));
            assert(loops.take(0) =~= Seq::<Seq<Point3>>::empty());
        }
        let mut i: usize = 0;
        while i < polygons.len()
            invariant
                0 <= i <= polygons.len(),
                self.wf(),
                map.wf(),
                *map == self.pixel_map_spec(),
                segs == segments_at(triangles@, plane_z),
                forall|j: int|
                    0 <= j < segs.len() ==> point_in_range((#[trigger] segs[j]).0) && point_in_range(
                        segs[j].1,
                    ),
                forall|j: int| 0 <= j < polygons@.len() ==> is_loop(segs, #[trigger] polygons@[j]@),
                loops == Seq::new(polygons@.len(), |j: int| polygons@[j]@),
                image.wf(),
                is_binary(image.pixels@),
                image.width == self.pixel_x,
                image.height == self.pixel_y,
                image.pixels@ == paint(*map, blank_pixels(*self), loops.take(i as int)),
            decreases polygons.len() - i,
        {
            proof {
                let l = polygons@[i as int]@;
                assert(is_loop(segs, l));
                assert forall|k: int| 0 <= k < l.len() implies point_in_range(#[trigger] l[k]) by {
                    assert(crate::assemble::is_endpoint(segs, l[k]));
                    let j = choose|j: int| 0 <= j < segs.len() && (#[trigger] segs[j].0 == l[k] || segs[j].1 == l[k]);
                    assert(point_in_range(segs[j].0) && point_in_range(segs[j].1));
                }
                assert(loops.take(i + 1).drop_last() =~= loops.take(i as int));
                assert(loops.take(i + 1).last() == l);
            }
            rasterize_loop(map, &mut image, &polygons[i]);
            i = i + 1;
        }
        proof {
            assert(loops.take(i as int) =~= loops);
            assert forall|j: int| 0 <= j < loops.len() implies is_loop(
                segments_at(triangles@, plane_z),
                #[trigger] loops[j],
            ) by {
                assert(loops[j] == polygons@[j]@);
            }
        }
        Some(image)
    }

    /// Slices a merged world-space triangle list: one layer per scheduled
    /// plane whose cross-section closes into at least one loop, in ascending
    /// height; planes that cut nothing give no layer.
    pub fn generate_slice_images(&self, triangles: &Vec<Triangle>) -> (r: Result<Vec<SliceLayer>, SliceError>)
        requires
            self.wf(),
        ensures
            self.slicing_ok(triangles@, r),
    {
        let mut t: usize = 0;
        while t < triangles.len()
            invariant
                0 <= t <= triangles.len(),
                forall|i: int| 0 <= i < t ==> #[trigger] triangle_in_range(triangles@[i]),
            decreases triangles.len() - t,
        {
            if !triangles[t].in_range() {
                return Err(SliceError::CoordinateOutOfRange);
            }
            t = t + 1;
        }
        assert(all_in_range(triangles@));
        let mut layers: Vec<SliceLayer> = Vec::new();
        let bb = match Self::compute_bounding_box(triangles) {
            None => {
                return Ok(layers);
            },
            Some(bb) => bb,
        };
        proof {
            lemma_box_in_range(triangles@, bb);
        }
        let heights = plane_heights(bb.min.z, bb.max.z, self.slice_thickness);
        let map = self.pixel_map();
        let ghost sched = plane_schedule(bb.min.z as int, bb.max.z as int, self.slice_thickness as int);
        let mut k: usize = 0;
        while k < heights.len()
            invariant
                0 <= k <= heights.len(),
                self.wf(),
                map == self.pixel_map_spec(),
                map.wf(),
                all_in_range(triangles@),
                is_bounding_box(vertices_of(triangles@), bb),
                coord_in_range(bb.min.z),
                coord_in_range(bb.max.z),
                sched == plane_schedule(bb.min.z as int, bb.max.z as int, self.slice_thickness as int),
                heights@.len() == sched.len(),
                forall|j: int| 0 <= j < heights@.len() ==> #[trigger] heights@[j] == bb.min.z + j * self.slice_thickness,
                forall|l: int| 0 <= l < layers@.len() ==> self.layer_ok(triangles@, #[trigger] layers@[l]),
                forall|l: int, m: int|
                    0 <= l < m < layers@.len() ==> (#[trigger] layers@[l]).z < (#[trigger] layers@[m]).z,
                forall|l: int|
                    0 <= l < layers@.len() ==> (#[trigger] layers@[l]).z < bb.min.z + k * self.slice_thickness,
                layer_views(layers@) == self.layers_for(triangles@, sched.take(k as int)),
            decreases heights.len() - k,
        {
            let z = heights[k];
            proof {
                let d = bb.max.z - bb.min.z;
                let tt = self.slice_thickness as int;
                lemma_fundamental_div_mod(d, tt);
                assert(k * tt <= d) by (nonlinear_arith)
                    requires
                        0 <= k <= d / tt,
                        d == tt * (d / tt) + d % tt,
                        0 <= d % tt,
                        tt > 0,
                ;
                assert(sched[k as int] == bb.min.z + k * tt);
            }
            let ghost before = layer_views(layers@);
            proof {
                assert(sched.take(k + 1).drop_last() =~= sched.take(k as int));
                assert(sched.take(k + 1).last() == sched[k as int]);
                assert(sched[k as int] as i64 == z);
            }
            match self.render_plane(&map, triangles, z) {
                Some(image) => {
                    let layer = SliceLayer { z, image };
                    proof {
                        assert(sched[k as int] == layer.z);
                    }
                    layers.push(layer);
                    assert(layer_views(layers@) =~= before.push((z, layers@.last().image.pixels@)));
                },
                None => {},
            }
            proof {
                assert(bb.min.z + k * self.slice_thickness + self.slice_thickness == bb.min.z + (k + 1)
                    * self.slice_thickness) by (nonlinear_arith);
            }
            k = k + 1;
        }
        assert(sched.take(k as int) =~= sched);
        Ok(layers)
    }
}

/// The triangles of all bodies, body after body.
pub open spec fn merged(bodies: Seq<Vec<Triangle>>) -> Seq<Triangle>
    decreases bodies.len(),
{
    if bodies.len() == 0 {
        seq![]
    } else {
        merged(bodies.drop_last()) + bodies.last()@
    }
}

impl CPUSlicer {
    /// Slices several bodies together, each already in world coordinates.
    pub fn slice_bodies(&self, bodies: &Vec<Vec<Triangle>>) -> (r: Result<Vec<SliceLayer>, SliceError>)
        requires
            self.wf(),
        ensures
            self.slicing_ok(merged(bodies@), r),
    {
        let mut triangles: Vec<Triangle> = Vec::new();
        let mut b: usize = 0;
        while b < bodies.len()
            invariant
                0 <= b <= bodies.len(),
                triangles@ == merged(bodies@.take(b as int)),
            decreases bodies.len() - b,
        {
            let body = &bodies[b];
            let ghost before = triangles@;
            let mut i: usize = 0;
            while i < body.len()
                invariant
                    0 <= i <= body.len(),
                    triangles@ == before + body@.take(i as int),
                decreases body.len() - i,
            {
                triangles.push(body[i]);
                assert(before + body@.take(i + 1) =~= (before + body@.take(i as int)).push(body@[i as int]));
                i = i + 1;
            }
            proof {
                assert(body@.take(i as int) =~= body@);
                assert(bodies@.take(b + 1).drop_last() =~= bodies@.take(b as int));
                assert(bodies@.take(b + 1).last() == bodies@[b as int]);
            }
            b = b + 1;
        }
        assert(bodies@.take(b as int) =~= bodies@);
        self.generate_slice_images(&triangles)
    }
}

/// Slicing is idempotent: any two results of slicing the same geometry with
/// the same configuration agree exactly, layer heights and masks alike.
pub proof fn lemma_slicing_idempotent(
    s: CPUSlicer,
    ts: Seq<Triangle>,
    r1: Result<Vec<SliceLayer>, SliceError>,
    r2: Result<Vec<SliceLayer>, SliceError>,
)
    requires
        s.slicing_ok(ts, r1),
        s.slicing_ok(ts, r2),
    ensures
        r1 is Ok <==> r2 is Ok,
        r1 is Err ==> r1 == r2,
        r1 matches Ok(a) ==> r2 matches Ok(b) && layer_views(a@) == layer_views(b@),
{
    if let Ok(a) = r1 {
        if let Ok(b) = r2 {
            if ts.len() == 0 {
                assert(layer_views(a@) =~= layer_views(b@));
            } else {
                let b1 = choose|bb: BoundingBox|
                    is_bounding_box(vertices_of(ts), bb) && layer_views(a@) == s.layers_for(
                        ts,
                        plane_schedule(bb.min.z as int, bb.max.z as int, s.slice_thickness as int),
                    );
                let b2 = choose|bb: BoundingBox|
                    is_bounding_box(vertices_of(ts), bb) && layer_views(b@) == s.layers_for(
                        ts,
                        plane_schedule(bb.min.z as int, bb.max.z as int, s.slice_thickness as int),
                    );
                lemma_bounding_box_unique(vertices_of(ts), b1, b2);
            }
        }
    }
}

/// A plane that meets none of the triangles gets no layer.
pub proof fn lemma_untouched_plane_has_no_layer(
    s: CPUSlicer,
    ts: Seq<Triangle>,
    layers: Vec<SliceLayer>,
    z: i64,
)
    requires
        s.slicing_ok(ts, Ok(layers)),
        forall|i: int| 0 <= i < ts.len() ==> intersection_points(#[trigger] ts[i], z).len() == 0,
    ensures
        forall|k: int| 0 <= k < layers@.len() ==> (#[trigger] layers@[k]).z != z,
{
    lemma_no_points_no_segments(ts, z);
    assert forall|k: int| 0 <= k < layers@.len() implies (#[trigger] layers@[k]).z != z by {
        assert(s.layer_ok(ts, layers@[k]));
    }
}

proof fn lemma_layers_for_members(s: CPUSlicer, ts: Seq<Triangle>, sched: Seq<int>)
    ensures
        forall|k: int|
            0 <= k < s.layers_for(ts, sched).len() ==> s.plane_mask(
                ts,
                (#[trigger] s.layers_for(ts, sched)[k]).0,
            ) is Some,
        forall|i: int|
            0 <= i < sched.len() && s.plane_mask(ts, #[trigger] sched[i] as i64) is Some ==> exists|k: int|
                0 <= k < s.layers_for(ts, sched).len() && s.layers_for(ts, sched)[k].0 == sched[i] as i64,
    decreases sched.len(),
{
    if sched.len() > 0 {
        let init = sched.drop_last();
        lemma_layers_for_members(s, ts, init);
        let rest = s.layers_for(ts, init);
        let all = s.layers_for(ts, sched);
        assert forall|k: int| 0 <= k < all.len() implies s.plane_mask(ts, (#[trigger] all[k]).0) is Some by {
            if k < rest.len() {
                assert(all[k] == rest[k]);
            }
        }
        assert forall|i: int|
            0 <= i < sched.len() && s.plane_mask(ts, #[trigger] sched[i] as i64) is Some implies exists|k: int|
                0 <= k < all.len() && all[k].0 == sched[i] as i64 by {
            if i < init.len() {
                assert(init[i] == sched[i]);
                let k = choose|k: int| 0 <= k < rest.len() && rest[k].0 == init[i] as i64;
                assert(all[k] == rest[k]);
            } else {
                assert(sched[i] == sched.last());
                assert(all[rest.len() as int].0 == sched[i] as i64);
            }
        }
    }
}

/// A scheduled plane gets a layer exactly when it has a mask: a plane that
/// cuts no segment, or whose segments close into no loop, gets none.
pub proof fn lemma_layer_iff_mask(s: CPUSlicer, ts: Seq<Triangle>, layers: Vec<SliceLayer>, bb: BoundingBox)
    requires
        s.slicing_ok(ts, Ok(layers)),
        ts.len() > 0,
        is_bounding_box(vertices_of(ts), bb),
    ensures
        forall|i: int|
            0 <= i < plane_schedule(bb.min.z as int, bb.max.z as int, s.slice_thickness as int).len()
                ==> (s.plane_mask(
                ts,
                #[trigger] plane_schedule(bb.min.z as int, bb.max.z as int, s.slice_thickness as int)[i]
                    as i64,
            ) is Some <==> exists|k: int|
                0 <= k < layers@.len() && layers@[k].z == plane_schedule(
                    bb.min.z as int,
                    bb.max.z as int,
                    s.slice_thickness as int,
                )[i] as i64),
{
    let sched = plane_schedule(bb.min.z as int, bb.max.z as int, s.slice_thickness as int);
    let b1 = choose|b: BoundingBox|
        is_bounding_box(vertices_of(ts), b) && layer_views(layers@) == s.layers_for(
            ts,
            plane_schedule(b.min.z as int, b.max.z as int, s.slice_thickness as int),
        );
    lemma_bounding_box_unique(vertices_of(ts), b1, bb);
    lemma_layers_for_members(s, ts, sched);
    let lf = s.layers_for(ts, sched);
    assert(layer_views(layers@) == lf);
    assert forall|i: int| 0 <= i < sched.len() implies (s.plane_mask(ts, #[trigger] sched[i] as i64) is Some
        <==> exists|k: int| 0 <= k < layers@.len() && layers@[k].z == sched[i] as i64) by {
        if s.plane_mask(ts, sched[i] as i64) is Some {
            let k = choose|k: int| 0 <= k < lf.len() && lf[k].0 == sched[i] as i64;
            assert(layer_views(layers@)[k].0 == layers@[k].z);
        }
        if exists|k: int| 0 <= k < layers@.len() && layers@[k].z == sched[i] as i64 {
            let k = choose|k: int| 0 <= k < layers@.len() && layers@[k].z == sched[i] as i64;
            assert(layer_views(layers@)[k].0 == layers@[k].z);
            assert(s.plane_mask(ts, lf[k].0) is Some);
        }
    }
}

/// Some loop of `loops` covers pixel `i`.
pub open spec fn covered(m: PixelMap, loops: Seq<Seq<Point3>>, i: int) -> bool {
    exists|j: int| 0 <= j < loops.len() && #[trigger] loop_cover(m, loops[j]).contains(i)
}

/// The loops of a plane are filled independently and additively: a pixel
/// ends up filled exactly when some loop covers it, whatever the order of
/// the loops, and otherwise keeps its value.
pub proof fn lemma_paint_additive(m: PixelMap, pixels: Seq<u8>, loops: Seq<Seq<Point3>>)
    ensures
        paint(m, pixels, loops).len() == pixels.len(),
        forall|i: int|
            0 <= i < pixels.len() ==> #[trigger] paint(m, pixels, loops)[i] == if covered(m, loops, i) {
                FILL_VALUE
            } else {
                pixels[i]
            },
    decreases loops.len(),
{
    if loops.len() > 0 {
        let init = loops.drop_last();
        lemma_paint_additive(m, pixels, init);
        assert forall|i: int| 0 <= i < pixels.len() implies #[trigger] paint(m, pixels, loops)[i]
            == if covered(m, loops, i) {
            FILL_VALUE
        } else {
            pixels[i]
        } by {
            if loop_cover(m, loops.last()).contains(i) {
                assert(loop_cover(m, loops[loops.len() - 1]).contains(i));
            } else {
                if covered(m, init, i) {
                    let j = choose|j: int| 0 <= j < init.len() && #[trigger] loop_cover(m, init[j]).contains(i);
                    assert(loops[j] == init[j]);
                    assert(loop_cover(m, loops[j]).contains(i));
                }
                if covered(m, loops, i) {
                    let j = choose|j: int| 0 <= j < loops.len() && #[trigger] loop_cover(m, loops[j]).contains(i);
                    if j < init.len() {
                        assert(loops[j] == init[j]);
                        assert(loop_cover(m, init[j]).contains(i));
                    }
                }
            }
        }
    }
}

} // verus!

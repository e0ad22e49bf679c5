//! Mask images and the filling of polygon loops into them.

use vstd::prelude::*;
use crate::geometry::{point_in_range, Point3};

verus! {

/// Value of a pixel inside a filled cross-section.
pub const FILL_VALUE: u8 = 255;

/// Pixel coordinates are clamped to this magnitude before filling, which
/// keeps the fill's `i32` arithmetic from overflowing. A slicer's canvas is
/// at most this many pixels on each side, so a clamped coordinate always lies
/// off the canvas. An edge from the canvas to a clamped vertex does bend,
/// though, and may cover slightly different pixels near the canvas than the
/// unclamped edge would; only geometry that maps hundreds of millions of
/// pixels off the canvas is affected.
pub const PIXEL_LIMIT: i32 = 0x2000_0000;

/// A single-channel raster, row by row, `width * height` pixels.
#[derive(Debug, PartialEq, Eq)]
pub struct MaskImage {
    pub width: u32,
    pub height: u32,
    pub pixels: Vec<u8>,
}

impl MaskImage {
    pub open spec fn wf(&self) -> bool {
        self.pixels@.len() == self.width * self.height
    }

    /// An all-zero canvas.
    pub fn blank(width: u32, height: u32) -> (r: MaskImage)
        requires
            width * height <= usize::MAX,
        ensures
            r.wf(),
            r.width == width,
            r.height == height,
            forall|i: int| 0 <= i < r.pixels@.len() ==> r.pixels@[i] == 0,
    {
        let n: usize = (width as usize) * (height as usize);
        let mut pixels: Vec<u8> = Vec::new();
        let mut i: usize = 0;
        while i < n
            invariant
                0 <= i <= n,
                pixels@.len() == i,
                forall|k: int| 0 <= k < i ==> pixels@[k] == 0,
            decreases n - i,
        {
            pixels.push(0);
            i = i + 1;
        }
        MaskImage { width, height, pixels }
    }

    /// The pixel at column `x`, row `y`.
    pub fn get(&self, x: u32, y: u32) -> (r: u8)
        requires
            self.wf(),
            x < self.width,
            y < self.height,
        ensures
            r == self.pixels@[y * self.width + x],
    {
        let len = self.pixels.len();
        proof {
            assert(y * self.width + x < self.width * self.height) by (nonlinear_arith)
                requires
                    x < self.width,
                    y < self.height,
            ;
            assert((y as usize) * (self.width as usize) <= y * self.width + x) by (nonlinear_arith)
                requires
                    y * self.width + x < len,
                    len <= usize::MAX,
            ;
        }
        self.pixels[(y as usize) * (self.width as usize) + (x as usize)]
    }
}

/// The pixels, as row-major indices `y * width + x`, that imageproc's
/// polygon fill writes for `poly` on a `width` by `height` canvas: its
/// scanline spans and its outline.
pub uninterp spec fn polygon_cover(width: u32, height: u32, poly: Seq<(i32, i32)>) -> Set<int>;

/// `pixels` with every index in `cover` set to `value`.
pub open spec fn overwrite(pixels: Seq<u8>, cover: Set<int>, value: u8) -> Seq<u8> {
    Seq::new(pixels.len(), |i: int| if cover.contains(i) { value } else { pixels[i] })
}

pub open spec fn pixel_in_limit(p: (i32, i32)) -> bool {
    -PIXEL_LIMIT <= p.0 <= PIXEL_LIMIT && -PIXEL_LIMIT <= p.1 <= PIXEL_LIMIT
}

/// Relies on imageproc::drawing::draw_polygon_mut, on an image::ImageBuffer
/// made from the pixels by ImageBuffer::from_raw and taken apart by into_raw.
/// Which pixels the fill writes depends on the canvas size and the points
/// alone, never on what the canvas holds; it writes `value` there, in place,
/// and leaves every other pixel as it was. The fill panics when the first and last
/// points are equal, and its scanline arithmetic, done in `i32`, needs
/// bounded coordinates and a canvas whose sides fit in an `i32`.
#[verifier::external_body]
fn fill_polygon(width: u32, height: u32, pixels: &Vec<u8>, poly: &Vec<(i32, i32)>, value: u8) -> (r: Vec<u8>)
    requires
        0 < width <= i32::MAX,
        0 < height <= i32::MAX,
        pixels@.len() == width * height,
        poly@.len() > 0 ==> poly@[0] != poly@.last(),
        forall|i: int| 0 <= i < poly@.len() ==> pixel_in_limit(#[trigger] poly@[i]),
    ensures
        r@ == overwrite(pixels@, polygon_cover(width, height, poly@), value),
{
    let mut canvas: image::ImageBuffer<image::Luma<u8>, Vec<u8>> =
        image::ImageBuffer::from_raw(width, height, pixels.clone()).unwrap();
    let points: Vec<imageproc::point::Point<i32>> =
        poly.iter().map(|p| imageproc::point::Point::new(p.0, p.1)).collect();
    imageproc::drawing::draw_polygon_mut(&mut canvas, &points, image::Luma([value]));
    canvas.into_raw()
}

/// Canvas and scale: `ppm_num / ppm_den` pixels per grid unit.
pub struct PixelMap {
    pub pixel_x: u32,
    pub pixel_y: u32,
    pub ppm_num: i64,
    pub ppm_den: i64,
}

impl PixelMap {
    pub open spec fn wf(&self) -> bool {
        0 < self.ppm_num <= u32::MAX && 0 < self.ppm_den
    }
}

pub open spec fn clamp_pixel(v: int) -> i32 {
    if v < -PIXEL_LIMIT {
        (-PIXEL_LIMIT) as i32
    } else if v > PIXEL_LIMIT {
        PIXEL_LIMIT
    } else {
        v as i32
    }
}

/// `n / d` rounded to the nearest integer, halves away from zero (`d > 0`).
pub open spec fn round_away(n: int, d: int) -> int {
    if n >= 0 {
        (2 * n + d) / (2 * d)
    } else {
        -((-2 * n + d) / (2 * d))
    }
}

/// `round(v * num / den + canvas / 2)`, halves away from zero, then clamped
/// to `PIXEL_LIMIT`.
pub open spec fn to_pixel(v: int, canvas: int, num: int, den: int) -> i32 {
    clamp_pixel(round_away(2 * v * num + canvas * den, 2 * den))
}

pub open spec fn pixel_of(m: PixelMap, p: Point3) -> (i32, i32) {
    (
        to_pixel(p.x as int, m.pixel_x as int, m.ppm_num as int, m.ppm_den as int),
        to_pixel(p.y as int, m.pixel_y as int, m.ppm_num as int, m.ppm_den as int),
    )
}

fn to_pixel_exec(v: i64, canvas: u32, num: i64, den: i64) -> (r: i32)
    requires
        -0x100_0000_0000 <= v <= 0x100_0000_0000,
        0 < num <= u32::MAX,
        0 < den,
    ensures
        r == to_pixel(v as int, canvas as int, num as int, den as int),
{
    proof {
        assert(-0x2_0000_0000_0000_0000_0000 <= 2 * v * num <= 0x2_0000_0000_0000_0000_0000) by (nonlinear_arith)
            requires
                -0x100_0000_0000 <= v <= 0x100_0000_0000,
                0 < num <= 0x1_0000_0000,
        ;
        assert(0 <= canvas * den <= 0x1_0000_0000 * 0x8000_0000_0000_0000) by (nonlinear_arith)
            requires
                0 <= canvas <= 0x1_0000_0000,
                0 < den <= 0x8000_0000_0000_0000,
        ;
    }
    let n: i128 = 2 * (v as i128) * (num as i128) + (canvas as i128) * (den as i128);
    let d: i128 = 2 * (den as i128);
    assert(-0x4_0000_0000_0000_0000_0000_0000 <= n <= 0x4_0000_0000_0000_0000_0000_0000);
    let q: i128 = if n >= 0 {
        (2 * n + d) / (2 * d)
    } else {
        let m: i128 = -n;
        -((2 * m + d) / (2 * d))
    };
    if q < -(PIXEL_LIMIT as i128) {
        -PIXEL_LIMIT
    } else if q > PIXEL_LIMIT as i128 {
        PIXEL_LIMIT
    } else {
        q as i32
    }
}

impl PixelMap {
    /// The pixel that a model point maps to: scaled by the map's single
    /// factor and centred on the canvas midpoint.
    pub fn model_to_image_coords(&self, p: &Point3) -> (r: (i32, i32))
        requires
            self.wf(),
            point_in_range(*p),
        ensures
            r == pixel_of(*self, *p),
    {
        (
            to_pixel_exec(p.x, self.pixel_x, self.ppm_num, self.ppm_den),
            to_pixel_exec(p.y, self.pixel_y, self.ppm_num, self.ppm_den),
        )
    }
}

/// Every pixel is background (0) or filled.
pub open spec fn is_binary(pixels: Seq<u8>) -> bool {
    forall|i: int| 0 <= i < pixels.len() ==> #[trigger] pixels[i] == 0 || pixels[i] == FILL_VALUE
}

/// The distinct elements of `s`, each where it first occurs.
pub open spec fn distinct_in_order(s: Seq<(i32, i32)>) -> Seq<(i32, i32)>
    decreases s.len(),
{
    if s.len() == 0 {
        seq![]
    } else {
        let d = distinct_in_order(s.drop_last());
        if d.contains(s.last()) {
            d
        } else {
            d.push(s.last())
        }
    }
}

/// The distinct pixels of a loop's points, in order.
pub open spec fn loop_pixels(m: PixelMap, l: Seq<Point3>) -> Seq<(i32, i32)> {
    distinct_in_order(Seq::new(l.len(), |i: int| pixel_of(m, l[i])))
}

/// The canvas after filling one loop: unchanged unless the loop keeps at
/// least three distinct pixels.
pub open spec fn fill_loop(m: PixelMap, pixels: Seq<u8>, l: Seq<Point3>) -> Seq<u8> {
    overwrite(pixels, loop_cover(m, l), FILL_VALUE)
}

/// The pixels that filling loop `l` sets: none unless its points keep at
/// least three distinct pixels.
pub open spec fn loop_cover(m: PixelMap, l: Seq<Point3>) -> Set<int> {
    let pts = loop_pixels(m, l);
    if pts.len() >= 3 {
        polygon_cover(m.pixel_x, m.pixel_y, pts)
    } else {
        Set::empty()
    }
}

proof fn lemma_distinct_facts(s: Seq<(i32, i32)>)
    ensures
        forall|i: int, j: int|
            0 <= i < j < distinct_in_order(s).len() ==> distinct_in_order(s)[i]
                != distinct_in_order(s)[j],
        forall|i: int|
            0 <= i < distinct_in_order(s).len() ==> s.contains(#[trigger] distinct_in_order(s)[i]),
    decreases s.len(),
{
    if s.len() > 0 {
        let p = s.drop_last();
        lemma_distinct_facts(p);
        let d = distinct_in_order(p);
        assert forall|i: int| 0 <= i < d.len() implies s.contains(#[trigger] d[i]) by {
            let k = choose|k: int| 0 <= k < p.len() && p[k] == d[i];
            assert(s[k] == d[i]);
        }
        assert(s[s.len() - 1] == s.last());
    }
}

/// Fills one polygon loop into the canvas: its points are mapped to pixels
/// (clamped to `PIXEL_LIMIT`), repeated pixels dropped, and the rest filled
/// when at least three remain.
pub fn rasterize_loop(map: &PixelMap, image: &mut MaskImage, polygon: &Vec<Point3>)
    requires
        map.wf(),
        old(image).wf(),
        old(image).width == map.pixel_x,
        old(image).height == map.pixel_y,
        0 < map.pixel_x <= i32::MAX,
        0 < map.pixel_y <= i32::MAX,
        forall|i: int| 0 <= i < polygon@.len() ==> point_in_range(#[trigger] polygon@[i]),
    ensures
        final(image).wf(),
        final(image).width == old(image).width,
        final(image).height == old(image).height,
        final(image).pixels@ == fill_loop(*map, old(image).pixels@, polygon@),
        is_binary(old(image).pixels@) ==> is_binary(final(image).pixels@),
{
    let ghost mapped = Seq::new(polygon@.len(), |i: int| pixel_of(*map, polygon@[i]));
    let mut points: Vec<(i32, i32)> = Vec::new();
    let mut i: usize = 0;
    while i < polygon.len()
        invariant
            0 <= i <= polygon.len(),
            map.wf(),
            forall|k: int| 0 <= k < polygon@.len() ==> point_in_range(#[trigger] polygon@[k]),
            mapped == Seq::new(polygon@.len(), |k: int| pixel_of(*map, polygon@[k])),
            points@ == distinct_in_order(mapped.take(i as int)),
        decreases polygon.len() - i,
    {
        let px = map.model_to_image_coords(&polygon[i]);
        proof {
            assert(mapped.take(i + 1).drop_last() =~= mapped.take(i as int));
            assert(mapped.take(i + 1).last() == px);
        }
        let mut seen = false;
        let mut k: usize = 0;
        while k < points.len()
            invariant
                0 <= k <= points.len(),
                seen == exists|j: int| 0 <= j < k && points@[j] == px,
            decreases points.len() - k,
        {
            if points[k].0 == px.0 && points[k].1 == px.1 {
                assert(points@[k as int] == px);
                seen = true;
            }
            k = k + 1;
        }
        if !seen {
            points.push(px);
        }
        i = i + 1;
    }
    proof {
        assert(mapped.take(i as int) =~= mapped);
        lemma_distinct_facts(mapped);
    }
    if points.len() >= 3 {
        proof {
            assert forall|j: int| 0 <= j < points@.len() implies pixel_in_limit(#[trigger] points@[j]) by {
                assert(mapped.contains(points@[j]));
            }
            assert(points@[0] != points@[points@.len() - 1]);
        }
        image.pixels = fill_polygon(map.pixel_x, map.pixel_y, &image.pixels, &points, FILL_VALUE);
    }
}

/// A loop whose points map to fewer than three distinct pixels draws
/// nothing: the canvas is left exactly as it was.
pub proof fn lemma_degenerate_loop_draws_nothing(m: PixelMap, pixels: Seq<u8>, l: Seq<Point3>)
    requires
        loop_pixels(m, l).len() < 3,
    ensures
        fill_loop(m, pixels, l) == pixels,
{
}

} // verus!

//! The conversion from a grayscale raster to the text of a closed solid.

use vstd::prelude::*;
use crate::grid::{grid_faces, grid_verts, meshable, triangulate};
use crate::obj::obj_text;
use crate::raster::{GrayBuffer, binarize, binary_of, invert, pad_border};
use crate::smooth::{is_falloff, is_nearest_on, on_off, on_within, smooth, smoothed_at, within};

verus! {

/// Rasters whose longer side exceeds this many pixels are scaled down first.
pub const MAX_DIMENSION: u32 = 512;

/// Pixels of border added beyond the smoothing radius.
pub const PADDING_MARGIN: u32 = 5;

/// Settings of a conversion; lengths are in micrometres.
#[derive(Clone, Copy, Debug, PartialEq, Eq, Structural)]
pub struct Options {
    /// Flip intensities before thresholding, so that dark artwork is raised.
    pub invert: bool,
    /// Radius of the edge smoothing; 0 turns smoothing off.
    pub smooth_radius_um: u32,
    /// Length that the longer side of the raster is scaled to.
    pub max_edge_um: u32,
    /// Height of the relief above the clearance.
    pub height_um: u32,
}

impl Options {
    /// The default settings: inverted, 0.5 mm smoothing, a 40 mm longer
    /// side and a 3 mm relief.
    pub fn new() -> (r: Options)
        ensures
            r == (Options { invert: true, smooth_radius_um: 500, max_edge_um: 40000, height_um: 3000 }),
    {
        Options { invert: true, smooth_radius_um: 500, max_edge_um: 40000, height_um: 3000 }
    }
}

impl Default for Options {
    fn default() -> (r: Options)
        ensures
            r == (Options { invert: true, smooth_radius_um: 500, max_edge_um: 40000, height_um: 3000 }),
    {
        Options::new()
    }
}

/// Why a conversion did not produce a mesh.
#[derive(Debug)]
pub enum StampError {
    /// The bytes are not an image that could be decoded.
    Decode(image::ImageError),
    /// The image has a channel layout other than gray, gray with alpha, or
    /// RGBA.
    UnsupportedPixelFormat,
    /// The raster is narrower or lower than 2 pixels, or vanishes when scaled
    /// down.
    DegenerateInput,
    /// The bordered grid or the smoothing radius is too large for the mesh's
    /// handles, or the smoothing radius is given with a longer side of 0.
    TooLarge,
}

/// The samples of `data` resized to `new_width` by `new_height` with
/// nearest-neighbour sampling.
pub uninterp spec fn nearest_resized(
    data: Seq<u8>,
    width: nat,
    height: nat,
    new_width: nat,
    new_height: nat,
) -> Seq<u8>;

/// Relies on image::imageops::resize with FilterType::Nearest: the result
/// has the requested size, its samples are a function of the source samples
/// and the two sizes, and each of them is copied from one source pixel (the
/// box kernel of support 0 gives one pixel weight 1).
#[verifier::external_body]
fn resize_nearest(img: &GrayBuffer, new_width: u32, new_height: u32) -> (r: GrayBuffer)
    requires
        img.wf(),
        img.width >= 1,
        img.height >= 1,
        new_width >= 1,
        new_height >= 1,
    ensures
        r.wf(),
        r.width == new_width,
        r.height == new_height,
        r.data@ == nearest_resized(
            img.data@,
            img.width as nat,
            img.height as nat,
            new_width as nat,
            new_height as nat,
        ),        forall|i: int| 0 <= i < r.data@.len() ==> img.data@.contains(#[trigger] r.data@[i]),
{
    let src = image::GrayImage::from_raw(img.width, img.height, img.data.clone()).unwrap();
    let out = image::imageops::resize(&src, new_width, new_height, image::imageops::FilterType::Nearest);
    GrayBuffer { width: out.width(), height: out.height(), data: out.into_raw() }
}

pub open spec fn larger(a: int, b: int) -> int {
    if a >= b { a } else { b }
}

/// `MAX_DIMENSION * dim / m` rounded to the nearest integer, halves up.
pub open spec fn shrunk(dim: int, m: int) -> int {
    (2 * MAX_DIMENSION * dim + m) / (2 * m)
}

pub open spec fn needs_resize(img: GrayBuffer) -> bool {
    larger(img.width as int, img.height as int) > MAX_DIMENSION
}

/// The width after scaling down, if that is needed.
pub open spec fn work_width(img: GrayBuffer) -> int {
    if needs_resize(img) {
        shrunk(img.width as int, larger(img.width as int, img.height as int))
    } else {
        img.width as int
    }
}

/// The height after scaling down, if that is needed.
pub open spec fn work_height(img: GrayBuffer) -> int {
    if needs_resize(img) {
        shrunk(img.height as int, larger(img.width as int, img.height as int))
    } else {
        img.height as int
    }
}

pub open spec fn inverted(s: Seq<u8>, flip: bool) -> Seq<u8> {
    if flip {
        s.map_values(|v: u8| (255 - v) as u8)
    } else {
        s
    }
}

/// The samples after inversion and scaling down.
pub open spec fn work_samples(img: GrayBuffer, opt: Options) -> Seq<u8> {
    if needs_resize(img) {
        nearest_resized(
            inverted(img.data@, opt.invert),
            img.width as nat,
            img.height as nat,
            work_width(img) as nat,
            work_height(img) as nat,
        )
    } else {
        inverted(img.data@, opt.invert)
    }
}

/// Border width: the smoothing radius in pixels rounded up, plus the margin.
pub open spec fn padding(radius_um: int, m: int, edge_um: int) -> int {
    if radius_um == 0 {
        PADDING_MARGIN as int
    } else {
        (radius_um * m + edge_um - 1) / edge_um + PADDING_MARGIN
    }
}

/// The smoothing radius in whole pixels, for a grid whose longer side is `m`.
pub open spec fn radius_px(radius_um: int, m: int, edge_um: int) -> int {
    if radius_um == 0 {
        0
    } else {
        radius_um * m / edge_um
    }
}

pub open spec fn is_degenerate(img: GrayBuffer) -> bool {
    img.width < 2 || img.height < 2 || work_width(img) == 0 || work_height(img) == 0
}

pub open spec fn border(img: GrayBuffer, opt: Options) -> int {
    padding(
        opt.smooth_radius_um as int,
        larger(work_width(img), work_height(img)),
        opt.max_edge_um as int,
    )
}

/// The smoothing radius in pixels over the bordered grid.
pub open spec fn final_radius(img: GrayBuffer, opt: Options) -> int {
    let p = border(img, opt);
    radius_px(
        opt.smooth_radius_um as int,
        larger(work_width(img) + 2 * p, work_height(img) + 2 * p),
        opt.max_edge_um as int,
    )
}

pub open spec fn is_too_large(img: GrayBuffer, opt: Options) -> bool {
    let p = border(img, opt);
    ||| (opt.smooth_radius_um > 0 && opt.max_edge_um == 0)
    ||| (work_width(img) + 2 * p) * (work_height(img) + 2 * p) * 3 + 8 > u32::MAX
    ||| final_radius(img, opt) > u32::MAX
}

/// `b` is the raster after inversion, scaling down, thresholding and
/// bordering.
pub open spec fn is_prepared(img: GrayBuffer, opt: Options, b: GrayBuffer) -> bool {
    let ww = work_width(img);
    let p = border(img, opt);
    &&& b.wf()
    &&& b.width == ww + 2 * p
    &&& b.height == work_height(img) + 2 * p
    &&& forall|x: int, y: int|
        0 <= x < b.width && 0 <= y < b.height ==> #[trigger] b.at(x, y) == (if p <= x < p + ww && p
            <= y < p + work_height(img) {
            binary_of(work_samples(img, opt)[(y - p) * ww + (x - p)])
        } else {
            0
        })
}

/// `g` is `b` smoothed with radius `r`.
pub open spec fn is_smoothed(b: GrayBuffer, r: int, g: GrayBuffer) -> bool {
    &&& g.wf()
    &&& g.width == b.width
    &&& g.height == b.height
    &&& forall|x: int, y: int|
        0 <= x < b.width && 0 <= y < b.height ==> smoothed_at(b, r, x, y, #[trigger] g.at(x, y))
}

/// The text of the solid built from grid `g`.
pub open spec fn stamp_text(g: GrayBuffer, opt: Options) -> Seq<char> {
    let verts = grid_verts(g, opt.max_edge_um as int, opt.height_um as int);
    obj_text(verts, grid_faces(verts, g.width as int, g.height as int))
}

/// What converting raster `img` with options `opt` gives: `DegenerateInput`
/// exactly for a degenerate raster, else `TooLarge` exactly when the grid is
/// too large, else the text of the solid over the prepared and smoothed grid.
pub open spec fn raw_outcome(img: GrayBuffer, opt: Options, r: Result<String, StampError>) -> bool {
    &&& is_degenerate(img) <==> (r matches Err(StampError::DegenerateInput))
    &&& !is_degenerate(img) ==> (is_too_large(img, opt) <==> (r matches Err(StampError::TooLarge)))
    &&& !is_degenerate(img) && !is_too_large(img, opt) ==> (r matches Ok(_))
    &&& r matches Ok(text) ==> exists|b: GrayBuffer, g: GrayBuffer|
        #[trigger] is_prepared(img, opt, b) && #[trigger] is_smoothed(b, final_radius(img, opt), g)
            && text@ == stamp_text(g, opt)
}

fn shrink(dim: u32, m: u32) -> (r: u32)
    requires
        dim <= m,
        m > 0,
    ensures
        r == shrunk(dim as int, m as int),
        r <= MAX_DIMENSION,
{
    assert((dim as u64) * 1024 <= 0xffff_ffff * 1024) by (nonlinear_arith)
        requires dim <= 0xffff_ffff;
    let n: u64 = (dim as u64) * 1024 + (m as u64);
    let d: u64 = 2 * (m as u64);
    proof {
        let mi = m as int;
        assert(n <= 1025 * mi) by (nonlinear_arith)
            requires n == dim * 1024 + mi, dim <= mi;
        vstd::arithmetic::div_mod::lemma_div_is_ordered(n as int, 1025 * mi, 2 * mi);
        vstd::arithmetic::div_mod::lemma_div_is_ordered(1025 * mi, 1026 * mi - 1, 2 * mi);
        vstd::arithmetic::div_mod::lemma_fundamental_div_mod_converse(1026 * mi - 1, 2 * mi, 512, 2 * mi - 1);
    }
    (n / d) as u32
}

/// Converts a raster into the text of a closed solid: the raster is
/// inverted if asked, scaled down if its longer side exceeds
/// `MAX_DIMENSION`, thresholded, given a zero border, smoothed, and meshed.
pub fn generate_raw(img: GrayBuffer, opt: &Options) -> (r: Result<String, StampError>)
    requires
        img.wf(),
    ensures
        raw_outcome(img, *opt, r),
{
    if img.width < 2 || img.height < 2 {
        return Err(StampError::DegenerateInput);
    }
    let ghost src = img;
    let w = img.width;
    let h = img.height;
    let m = if w >= h { w } else { h };
    let mut work = img;
    if opt.invert {
        invert(&mut work);
    }
    assert(work.data@ =~= inverted(src.data@, opt.invert));
    let ww = if m > MAX_DIMENSION { shrink(w, m) } else { w };
    let wh = if m > MAX_DIMENSION { shrink(h, m) } else { h };
    if ww == 0 || wh == 0 {
        return Err(StampError::DegenerateInput);
    }
    if m > MAX_DIMENSION {
        work = resize_nearest(&work, ww, wh);
    }
    assert(work.data@ == work_samples(src, *opt));
    let ghost sampled = work;
    binarize(&mut work);
    let mw: u64 = if ww >= wh { ww as u64 } else { wh as u64 };
    let rad_um = opt.smooth_radius_um as u64;
    let edge = opt.max_edge_um as u64;
    if rad_um > 0 && edge == 0 {
        return Err(StampError::TooLarge);
    }
    assert(rad_um * mw <= 0xffff_ffff * 0xffff_ffff) by (nonlinear_arith)
        requires rad_um <= 0xffff_ffff, mw <= 0xffff_ffff;
    let pad: u64 = if rad_um == 0 { PADDING_MARGIN as u64 } else { (rad_um * mw + edge - 1) / edge + PADDING_MARGIN as u64 };
    assert(pad == border(src, *opt));
    assert(mw <= 512);
    assert(rad_um * mw <= 0xffff_ffff * 512) by (nonlinear_arith)
        requires rad_um <= 0xffff_ffff, mw <= 512;
    assert(pad <= 0x400_0000_0000) by {
        if rad_um > 0 {
            vstd::arithmetic::div_mod::lemma_div_is_ordered_by_denominator((rad_um * mw + edge - 1) as int, 1, edge as int);
            assert((rad_um * mw + edge - 1) as int / 1 == (rad_um * mw + edge - 1) as int);
        }
    }
    let pw: u64 = ww as u64 + 2 * pad;
    let ph: u64 = wh as u64 + 2 * pad;
    assert((pw as u128) * (ph as u128) <= 0x1_0000_0000_0000_0000_0000_0000_0000) by (nonlinear_arith)
        requires pw < 0x1_0000_0000_0000, ph < 0x1_0000_0000_0000;
    if (pw as u128) * (ph as u128) * 3 + 8 > u32::MAX as u128 {
        return Err(StampError::TooLarge);
    }
    assert(pw <= u32::MAX && ph <= u32::MAX) by (nonlinear_arith)
        requires pw * ph * 3 + 8 <= u32::MAX, pw >= 1, ph >= 1;
    let m2: u64 = if pw >= ph { pw } else { ph };
    assert(rad_um * m2 <= 0xffff_ffff * 0xffff_ffff) by (nonlinear_arith)
        requires rad_um <= 0xffff_ffff, m2 <= 0xffff_ffff;
    let rad: u64 = if rad_um == 0 { 0 } else { rad_um * m2 / edge };
    assert(rad == final_radius(src, *opt));
    if rad > u32::MAX as u64 {
        return Err(StampError::TooLarge);
    }
    let padded = pad_border(&work, pad as u32);
    proof {
        let p = pad as int;
        assert forall|x: int, y: int|
            0 <= x < padded.width && 0 <= y < padded.height implies #[trigger] padded.at(x, y) == (if p
                <= x < p + ww && p <= y < p + wh {
                binary_of(work_samples(src, *opt)[(y - p) * ww + (x - p)])
            } else {
                0
            }) by {
            if p <= x < p + ww && p <= y < p + wh {
                crate::raster::lemma_index_in_grid(x - p, y - p, ww as int, wh as int);
            }
        }
        assert(is_prepared(src, *opt, padded));
    }
    let g = smooth(&padded, rad as u32);
    assert(is_smoothed(padded, final_radius(src, *opt), g));
    let mesh = triangulate(&g, opt.max_edge_um, opt.height_um);
    let text = mesh.generate_obj();
    assert(text@ == stamp_text(g, *opt));
    Ok(text)
}

proof fn lemma_falloff_unique(v1: int, v2: int, q: int, r: int)
    requires
        is_falloff(v1, q, r),
        is_falloff(v2, q, r),
    ensures
        v1 == v2,
{
    if v1 < v2 {
        assert(r * r * ((255 - v2) * (255 - v2)) <= r * r * ((255 - (v1 + 1)) * (255 - (v1 + 1)))) by (nonlinear_arith)
            requires v1 + 1 <= v2 <= 255;
    } else if v2 < v1 {
        assert(r * r * ((255 - v1) * (255 - v1)) <= r * r * ((255 - (v2 + 1)) * (255 - (v2 + 1)))) by (nonlinear_arith)
            requires v2 + 1 <= v1 <= 255;
    }
}

proof fn lemma_nearest_unique(img: GrayBuffer, x: int, y: int, r: int, q1: int, q2: int)
    requires
        is_nearest_on(img, x, y, r, q1),
        is_nearest_on(img, x, y, r, q2),
    ensures
        q1 == q2,
{
    let (ax, ay) = choose|dx: int, dy: int|
        within(dx, dy, r) && #[trigger] on_off(img, x, y, dx, dy) && dx * dx + dy * dy == q1;
    let (bx, by) = choose|dx: int, dy: int|
        within(dx, dy, r) && #[trigger] on_off(img, x, y, dx, dy) && dx * dx + dy * dy == q2;
    assert(on_off(img, x, y, ax, ay));
    assert(on_off(img, x, y, bx, by));
}

/// Two grids of the same size that agree at every pixel hold the same samples.
proof fn lemma_same_samples(g1: GrayBuffer, g2: GrayBuffer)
    requires
        g1.wf(),
        g2.wf(),
        g1.width == g2.width,
        g1.height == g2.height,
        g1.width > 0,
        forall|x: int, y: int| 0 <= x < g1.width && 0 <= y < g1.height ==> #[trigger] g1.at(x, y) == g2.at(x, y),
    ensures
        g1.data@ == g2.data@,
{
    let w = g1.width as int;
    assert forall|i: int| 0 <= i < g1.data@.len() implies g1.data@[i] == g2.data@[i] by {
        vstd::arithmetic::div_mod::lemma_fundamental_div_mod(i, w);
        vstd::arithmetic::div_mod::lemma_mod_pos_bound(i, w);
        let (x, y) = (i % w, i / w);
        assert(i == y * w + x) by (nonlinear_arith)
            requires i == w * (i / w) + i % w, x == i % w, y == i / w;
        assert(0 <= y < g1.height) by (nonlinear_arith)
            requires i == y * w + x, 0 <= x < w, 0 <= i < w * g1.height, w > 0;
        assert(g1.at(x, y) == g2.at(x, y));
    }
    assert(g1.data@ =~= g2.data@);
}

/// Converting the same raster with the same options twice gives the same
/// outcome: the same error, or the same text, so every block of the surface
/// is split along the same diagonal both times.
pub proof fn lemma_generate_deterministic(
    img: GrayBuffer,
    opt: Options,
    r1: Result<String, StampError>,
    r2: Result<String, StampError>,
)
    requires
        img.wf(),
        raw_outcome(img, opt, r1),
        raw_outcome(img, opt, r2),
    ensures
        (r1 matches Err(StampError::DegenerateInput)) <==> (r2 matches Err(StampError::DegenerateInput)),
        (r1 matches Err(StampError::TooLarge)) <==> (r2 matches Err(StampError::TooLarge)),
        r1 is Ok <==> r2 is Ok,
        match (r1, r2) {
            (Ok(t1), Ok(t2)) => t1@ == t2@,
            _ => true,
        },
{
    if r1 is Ok && r2 is Ok {
        let t1 = r1->Ok_0;
        let t2 = r2->Ok_0;
        let (b1, g1) = choose|b: GrayBuffer, g: GrayBuffer|
            #[trigger] is_prepared(img, opt, b) && #[trigger] is_smoothed(b, final_radius(img, opt), g)
                && t1@ == stamp_text(g, opt);
        let (b2, g2) = choose|b: GrayBuffer, g: GrayBuffer|
            #[trigger] is_prepared(img, opt, b) && #[trigger] is_smoothed(b, final_radius(img, opt), g)
                && t2@ == stamp_text(g, opt);
        let rad = final_radius(img, opt);
        assert forall|x: int, y: int| 0 <= x < b1.width && 0 <= y < b1.height implies #[trigger] b1.at(x, y) == b2.at(x, y) by {
            assert(b1.at(x, y) == b2.at(x, y));
        }
        lemma_same_samples(b1, b2);
        assert forall|x: int, y: int, dx: int, dy: int|
            #[trigger] on_off(b1, x, y, dx, dy) == on_off(b2, x, y, dx, dy) by {}
        assert forall|x: int, y: int| 0 <= x < g1.width && 0 <= y < g1.height implies #[trigger] g1.at(x, y) == g2.at(x, y) by {
            assert(smoothed_at(b1, rad, x, y, g1.at(x, y)));
            assert(smoothed_at(b2, rad, x, y, g2.at(x, y)));
            assert(b1.at(x, y) == b2.at(x, y));
            assert(on_within(b1, x, y, rad) == on_within(b2, x, y, rad)) by {
                if on_within(b1, x, y, rad) {
                    let (dx, dy) = choose|dx: int, dy: int| within(dx, dy, rad) && #[trigger] on_off(b1, x, y, dx, dy);
                    assert(on_off(b2, x, y, dx, dy));
                }
                if on_within(b2, x, y, rad) {
                    let (dx, dy) = choose|dx: int, dy: int| within(dx, dy, rad) && #[trigger] on_off(b2, x, y, dx, dy);
                    assert(on_off(b1, x, y, dx, dy));
                }
            }
            if !(rad == 0 || !on_within(b1, x, y, rad)) {
                let q1 = choose|q: int| is_nearest_on(b1, x, y, rad, q) && #[trigger] is_falloff(g1.at(x, y) as int, q, rad);
                let q2 = choose|q: int| is_nearest_on(b2, x, y, rad, q) && #[trigger] is_falloff(g2.at(x, y) as int, q, rad);
                assert(is_nearest_on(b1, x, y, rad, q2)) by {
                    let (dx, dy) = choose|dx: int, dy: int|
                        within(dx, dy, rad) && #[trigger] on_off(b2, x, y, dx, dy) && dx * dx + dy * dy == q2;
                    assert(on_off(b1, x, y, dx, dy));
                    assert forall|ex: int, ey: int|
                        within(ex, ey, rad) && #[trigger] on_off(b1, x, y, ex, ey) implies ex * ex + ey * ey >= q2 by {
                        assert(on_off(b2, x, y, ex, ey));
                    }
                }
                lemma_nearest_unique(b1, x, y, rad, q1, q2);
                lemma_falloff_unique(g1.at(x, y) as int, g2.at(x, y) as int, q1, rad);
            }
        }
        lemma_same_samples(g1, g2);
        let e = opt.max_edge_um as int;
        let h = opt.height_um as int;
        assert(grid_verts(g1, e, h) =~= grid_verts(g2, e, h));
    }
}

/// The width of the bordered grid that is meshed.
pub open spec fn grid_width(img: GrayBuffer, opt: Options) -> int {
    work_width(img) + 2 * border(img, opt)
}

/// The height of the bordered grid that is meshed.
pub open spec fn grid_height(img: GrayBuffer, opt: Options) -> int {
    work_height(img) + 2 * border(img, opt)
}

/// A successful conversion writes the text of a mesh with `W * H + 4`
/// vertices and `2 * (W - 1) * (H - 1) + 8` faces, where `W` by `H` is the
/// thresholded and bordered grid.
pub proof fn lemma_generate_counts(img: GrayBuffer, opt: Options, r: Result<String, StampError>)
    requires
        img.wf(),
        raw_outcome(img, opt, r),
    ensures
        r matches Ok(text) ==> exists|verts: Seq<crate::mesh::Vertex>, faces: Seq<crate::mesh::Face>|
            text@ == #[trigger] obj_text(verts, faces) && verts.len() == grid_width(img, opt) * grid_height(
                img,
                opt,
            ) + 4 && faces.len() == 2 * (grid_width(img, opt) - 1) * (grid_height(img, opt) - 1) + 8,
{
    if r is Ok {
        let text = r->Ok_0;
        let (b, g) = choose|b: GrayBuffer, g: GrayBuffer|
            #[trigger] is_prepared(img, opt, b) && #[trigger] is_smoothed(b, final_radius(img, opt), g)
                && text@ == stamp_text(g, opt);
        assert(border(img, opt) >= 5) by {
            if opt.smooth_radius_um != 0 {
                let m = larger(work_width(img), work_height(img));
                assert(opt.smooth_radius_um * m + opt.max_edge_um - 1 >= 0) by (nonlinear_arith)
                    requires opt.smooth_radius_um >= 0, m >= 0, opt.max_edge_um >= 1;
            }
        }
        assert(meshable(g));
        let e = opt.max_edge_um as int;
        let h = opt.height_um as int;
        crate::grid::lemma_mesh_counts(g, e, h);
        let verts = grid_verts(g, e, h);
        let faces = grid_faces(verts, g.width as int, g.height as int);
        assert(text@ == obj_text(verts, faces));
    }
}

} // verus!

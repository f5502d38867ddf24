//! Distance-field smoothing: each pixel near an on pixel takes a value that
//! falls off linearly with the distance to the nearest one.

use vstd::prelude::*;
use crate::raster::{GrayBuffer, lemma_index_in_grid};

verus! {

/// The offset `(dx, dy)` lies within the disc of radius `r`.
pub open spec fn within(dx: int, dy: int, r: int) -> bool {
    dx * dx + dy * dy <= r * r
}

/// The pixel at offset `(dx, dy)` from `(x, y)` exists and is on.
pub open spec fn on_off(img: GrayBuffer, x: int, y: int, dx: int, dy: int) -> bool {
    img.on_at(x + dx, y + dy)
}

/// Some on pixel lies within radius `r` of `(x, y)`.
pub open spec fn on_within(img: GrayBuffer, x: int, y: int, r: int) -> bool {
    exists|dx: int, dy: int| within(dx, dy, r) && #[trigger] on_off(img, x, y, dx, dy)
}

/// `q` is the least squared distance from `(x, y)` to an on pixel within
/// radius `r`.
pub open spec fn is_nearest_on(img: GrayBuffer, x: int, y: int, r: int, q: int) -> bool {
    &&& exists|dx: int, dy: int|
        within(dx, dy, r) && #[trigger] on_off(img, x, y, dx, dy) && dx * dx + dy * dy == q
    &&& forall|dx: int, dy: int|
        within(dx, dy, r) && #[trigger] on_off(img, x, y, dx, dy) ==> dx * dx + dy * dy >= q
}

/// `v <= 255 * (r - sqrt(q)) / r`, squared out so that it stays exact.
pub open spec fn falloff_ok(v: int, q: int, r: int) -> bool {
    65025 * q <= r * r * ((255 - v) * (255 - v))
}

/// `v` is `255 * (r - sqrt(q)) / r` rounded down: the largest value in
/// `0..=255` that does not exceed it.
pub open spec fn is_falloff(v: int, q: int, r: int) -> bool {
    &&& 0 <= v <= 255
    &&& falloff_ok(v, q, r)
    &&& (v == 255 || !falloff_ok(v + 1, q, r))
}

/// What smoothing with radius `r` leaves at pixel `(x, y)`.
pub open spec fn smoothed_at(img: GrayBuffer, r: int, x: int, y: int, v: u8) -> bool {
    if r == 0 || !on_within(img, x, y, r) {
        v == img.at(x, y)
    } else {
        exists|q: int| is_nearest_on(img, x, y, r, q) && #[trigger] is_falloff(v as int, q, r)
    }
}

/// The offsets visited so far by a row-major scan that stands at `(cx, cy)`.
pub open spec fn seen(dx: int, dy: int, cx: int, cy: int) -> bool {
    dy < cy || (dy == cy && dx < cx)
}

/// `best` is the least squared distance to an on pixel among the seen
/// offsets within radius `r`, or `None` if there is none.
pub open spec fn best_so_far(
    img: GrayBuffer,
    x: int,
    y: int,
    r: int,
    best: Option<u64>,
    cx: int,
    cy: int,
) -> bool {
    match best {
        None => forall|dx: int, dy: int|
            seen(dx, dy, cx, cy) && within(dx, dy, r) ==> !#[trigger] on_off(img, x, y, dx, dy),
        Some(q) => {
            &&& exists|dx: int, dy: int|
                seen(dx, dy, cx, cy) && within(dx, dy, r) && #[trigger] on_off(img, x, y, dx, dy)
                    && dx * dx + dy * dy == q
            &&& forall|dx: int, dy: int|
                seen(dx, dy, cx, cy) && within(dx, dy, r) && #[trigger] on_off(img, x, y, dx, dy)
                    ==> dx * dx + dy * dy >= q
        },
    }
}

proof fn lemma_within_bounds(dx: int, dy: int, r: int)
    requires
        r >= 0,
        within(dx, dy, r),
    ensures
        -r <= dx <= r,
        -r <= dy <= r,
{
    assert(dx * dx <= r * r) by (nonlinear_arith)
        requires dx * dx + dy * dy <= r * r;
    assert(dy * dy <= r * r) by (nonlinear_arith)
        requires dx * dx + dy * dy <= r * r;
    if dx > r {
        assert(dx * dx > r * r) by (nonlinear_arith)
            requires dx > r, r >= 0;
    }
    if dx < -r {
        assert(dx * dx > r * r) by (nonlinear_arith)
            requires dx < -r, r >= 0;
    }
    if dy > r {
        assert(dy * dy > r * r) by (nonlinear_arith)
            requires dy > r, r >= 0;
    }
    if dy < -r {
        assert(dy * dy > r * r) by (nonlinear_arith)
            requires dy < -r, r >= 0;
    }
}

/// The least squared distance from `(x, y)` to an on pixel within radius
/// `r`, or `None` if no on pixel is that close.
pub fn nearest_on_sq(img: &GrayBuffer, x: u32, y: u32, r: u32) -> (res: Option<u64>)
    requires
        img.wf(),
        x < img.width,
        y < img.height,
    ensures
        match res {
            None => !on_within(*img, x as int, y as int, r as int),
            Some(q) => is_nearest_on(*img, x as int, y as int, r as int, q as int),
        },
{
    let ri: i64 = r as i64;
    let rw: i128 = ri as i128;
    assert(0 <= rw * rw < 0x1_0000_0000_0000_0000) by (nonlinear_arith)
        requires 0 <= rw < 0x1_0000_0000;
    let rr: i128 = rw * rw;
    let mut best: Option<u64> = None;
    let mut dy: i64 = -ri;
    assert forall|ex: int, ey: int|
        seen(ex, ey, -ri as int, dy as int) && within(ex, ey, r as int) implies !#[trigger] on_off(
        *img,
        x as int,
        y as int,
        ex,
        ey,
    ) by {
        lemma_within_bounds(ex, ey, r as int);
    }
    while dy <= ri
        invariant
            img.wf(),
            x < img.width,
            y < img.height,
            ri == r,
            rr == ri * ri,
            rr < 0x1_0000_0000_0000_0000,
            -ri <= dy <= ri + 1,
            best_so_far(*img, x as int, y as int, r as int, best, -ri as int, dy as int),
        decreases ri + 1 - dy,
    {
        let mut dx: i64 = -ri;
        while dx <= ri
            invariant
                img.wf(),
                x < img.width,
                y < img.height,
                ri == r,
                rr == ri * ri,
                rr < 0x1_0000_0000_0000_0000,
                -ri <= dy <= ri,
                -ri <= dx <= ri + 1,
                best_so_far(*img, x as int, y as int, r as int, best, dx as int, dy as int),
            decreases ri + 1 - dx,
        {
            let ex: i128 = dx as i128;
            let ey: i128 = dy as i128;
            assert(0 <= ex * ex <= rr && 0 <= ey * ey <= rr) by (nonlinear_arith)
                requires -ri <= ex <= ri, -ri <= ey <= ri, rr == ri * ri;
            let d: i128 = ex * ex + ey * ey;
            let px: i64 = x as i64 + dx;
            let py: i64 = y as i64 + dy;
            let ghost old_best = best;
            if d <= rr && 0 <= px && px < img.width as i64 && 0 <= py && py < img.height as i64 {
                if img.get_pixel(px as u32, py as u32) == 255 {
                    let better = match best {
                        None => true,
                        Some(q) => d < q as i128,
                    };
                    if better {
                        best = Some(d as u64);
                    }
                }
            }
            proof {
                assert(on_off(*img, x as int, y as int, dx as int, dy as int) <==> (0 <= px < img.width
                    && 0 <= py < img.height && img.at(px as int, py as int) == 255));
                match best {
                    None => {
                        assert forall|ex: int, ey: int|
                            seen(ex, ey, dx + 1, dy as int) && within(ex, ey, r as int) implies !#[trigger] on_off(
                            *img,
                            x as int,
                            y as int,
                            ex,
                            ey,
                        ) by {
                            if !(ex == dx && ey == dy) {
                                assert(seen(ex, ey, dx as int, dy as int));
                            }
                        }
                    },
                    Some(q) => {
                        if old_best == best {
                            let (wx, wy) = choose|wx: int, wy: int|
                                seen(wx, wy, dx as int, dy as int) && within(wx, wy, r as int)
                                    && #[trigger] on_off(*img, x as int, y as int, wx, wy) && wx * wx
                                    + wy * wy == q;
                            assert(seen(wx, wy, dx + 1, dy as int));
                        } else {
                            assert(seen(dx as int, dy as int, dx + 1, dy as int));
                            assert(on_off(*img, x as int, y as int, dx as int, dy as int));
                        }
                        assert forall|ex: int, ey: int|
                            seen(ex, ey, dx + 1, dy as int) && within(ex, ey, r as int)
                                && #[trigger] on_off(*img, x as int, y as int, ex, ey) implies ex * ex
                            + ey * ey >= q by {
                            if !(ex == dx && ey == dy) {
                                assert(seen(ex, ey, dx as int, dy as int));
                            }
                        }
                    },
                }
            }
            dx = dx + 1;
        }
        proof {
            match best {
                None => {
                    assert forall|ex: int, ey: int|
                        seen(ex, ey, -ri as int, dy + 1) && within(ex, ey, r as int) implies !#[trigger] on_off(
                        *img,
                        x as int,
                        y as int,
                        ex,
                        ey,
                    ) by {
                        lemma_within_bounds(ex, ey, r as int);
                        assert(seen(ex, ey, dx as int, dy as int));
                    }
                },
                Some(q) => {
                    let (wx, wy) = choose|wx: int, wy: int|
                        seen(wx, wy, dx as int, dy as int) && within(wx, wy, r as int) && #[trigger] on_off(
                            *img,
                            x as int,
                            y as int,
                            wx,
                            wy,
                        ) && wx * wx + wy * wy == q;
                    lemma_within_bounds(wx, wy, r as int);
                    assert(seen(wx, wy, -ri as int, dy + 1));
                    assert forall|ex: int, ey: int|
                        seen(ex, ey, -ri as int, dy + 1) && within(ex, ey, r as int) && #[trigger] on_off(
                            *img,
                            x as int,
                            y as int,
                            ex,
                            ey,
                        ) implies ex * ex + ey * ey >= q by {
                        lemma_within_bounds(ex, ey, r as int);
                        assert(seen(ex, ey, dx as int, dy as int));
                    }
                },
            }
        }
        dy = dy + 1;
    }
    proof {
        match best {
            None => {
                assert forall|ex: int, ey: int|
                    within(ex, ey, r as int) implies !#[trigger] on_off(*img, x as int, y as int, ex, ey) by {
                    lemma_within_bounds(ex, ey, r as int);
                    assert(seen(ex, ey, -ri as int, dy as int));
                }
            },
            Some(q) => {
                let (wx, wy) = choose|wx: int, wy: int|
                    seen(wx, wy, -ri as int, dy as int) && within(wx, wy, r as int) && #[trigger] on_off(
                        *img,
                        x as int,
                        y as int,
                        wx,
                        wy,
                    ) && wx * wx + wy * wy == q;
                assert(within(wx, wy, r as int) && on_off(*img, x as int, y as int, wx, wy));
                assert forall|ex: int, ey: int|
                    within(ex, ey, r as int) && #[trigger] on_off(*img, x as int, y as int, ex, ey) implies ex
                        * ex + ey * ey >= q by {
                    lemma_within_bounds(ex, ey, r as int);
                    assert(seen(ex, ey, -ri as int, dy as int));
                }
            },
        }
    }
    best
}

/// `255 * (r - sqrt(q)) / r` rounded down, computed without leaving the
/// integers.
pub fn falloff(q: u64, r: u32) -> (v: u8)
    requires
        r > 0,
        q <= r * r,
    ensures
        is_falloff(v as int, q as int, r as int),
{
    let lhs: u128 = 65025 * (q as u128);
    let rw: u128 = r as u128;
    assert(rw * rw <= 0xffff_ffff_ffff_ffff) by (nonlinear_arith)
        requires rw <= 0xffff_ffff;
    let rr: u128 = rw * rw;
    let mut t: u128 = 0;
    assert(65025 * q <= rr * (255 * 255)) by (nonlinear_arith)
        requires q <= rr;
    while rr * (t * t) < lhs
        invariant
            t <= 255,
            lhs == 65025 * q,
            rr == r * r,
            rr <= 0xffff_ffff_ffff_ffff,
            65025 * q <= rr * (255 * 255),
            t == 0 || rr * ((t - 1) * (t - 1)) < lhs,
            t * t <= 65025,
            rr * (t * t) <= 0xffff_ffff_ffff_ffff * 65025,
        decreases 255 - t,
    {
        assert(t < 255);
        t = t + 1;
        assert(t * t <= 65025 && rr * (t * t) <= 0xffff_ffff_ffff_ffff * 65025) by (nonlinear_arith)
            requires t <= 255, rr <= 0xffff_ffff_ffff_ffff;
    }
    let v: u8 = (255 - t) as u8;
    assert(255 - v == t);
    assert(255 - (v + 1) == t - 1);
    v
}

/// Replaces each pixel that has an on pixel within radius `r` with the
/// linear falloff of its distance to the nearest one; other pixels keep
/// their value. Radius 0 leaves the grid as it is.
pub fn smooth(img: &GrayBuffer, r: u32) -> (out: GrayBuffer)
    requires
        img.wf(),
    ensures
        out.wf(),
        out.width == img.width,
        out.height == img.height,
        forall|x: int, y: int|
            0 <= x < img.width && 0 <= y < img.height ==> smoothed_at(*img, r as int, x, y, #[trigger] out.at(x, y)),
        r == 0 ==> out.data@ == img.data@,
{
    let mut out = GrayBuffer { width: img.width, height: img.height, data: img.data.clone() };
    assert(out.data@ =~= img.data@);
    if r == 0 {
        return out;
    }
    let mut y: u32 = 0;
    while y < img.height
        invariant
            img.wf(),
            r > 0,
            out.wf(),
            out.width == img.width,
            out.height == img.height,
            y <= img.height,
            forall|px: int, py: int|
                0 <= px < img.width && 0 <= py < img.height ==> (if py < y {
                    smoothed_at(*img, r as int, px, py, #[trigger] out.at(px, py))
                } else {
                    out.at(px, py) == img.at(px, py)
                }),
        decreases img.height - y,
    {
        let mut x: u32 = 0;
        while x < img.width
            invariant
                img.wf(),
                r > 0,
                out.wf(),
                out.width == img.width,
                out.height == img.height,
                y < img.height,
                x <= img.width,
                forall|px: int, py: int|
                    0 <= px < img.width && 0 <= py < img.height ==> (if py < y || (py == y && px < x) {
                        smoothed_at(*img, r as int, px, py, #[trigger] out.at(px, py))
                    } else {
                        out.at(px, py) == img.at(px, py)
                    }),
            decreases img.width - x,
        {
            let near = nearest_on_sq(img, x, y, r);
            let ghost before = out;
            let i = out.index(x, y);
            match near {
                Some(q) => {
                    proof {
                        let (wx, wy) = choose|wx: int, wy: int|
                            within(wx, wy, r as int) && #[trigger] on_off(*img, x as int, y as int, wx, wy)
                                && wx * wx + wy * wy == q;
                        assert(on_within(*img, x as int, y as int, r as int));
                    }
                    let v = falloff(q, r);
                    out.data.set(i, v);
                    assert(smoothed_at(*img, r as int, x as int, y as int, out.at(x as int, y as int)));
                },
                None => {
                    assert(smoothed_at(*img, r as int, x as int, y as int, out.at(x as int, y as int)));
                },
            }
            assert forall|px: int, py: int|
                0 <= px < img.width && 0 <= py < img.height implies (if py < y || (py == y && px < x + 1) {
                    smoothed_at(*img, r as int, px, py, #[trigger] out.at(px, py))
                } else {
                    out.at(px, py) == img.at(px, py)
                }) by {
                lemma_index_in_grid(px, py, img.width as int, img.height as int);
                if py * img.width + px == y * img.width + x {
                    crate::raster::lemma_index_unique(px, py, x as int, y as int, img.width as int);
                } else {
                    assert(out.at(px, py) == before.at(px, py));
                }
            }
            x = x + 1;
        }
        y = y + 1;
    }
    out
}

} // verus!

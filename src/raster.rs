//! Single-channel 8-bit rasters and the per-pixel steps that prepare one for
//! meshing: inversion, thresholding and border padding.

use vstd::prelude::*;

verus! {

/// A grid of 8-bit intensities, stored row by row.
#[derive(Clone, Debug)]
pub struct GrayBuffer {
    pub width: u32,
    pub height: u32,
    pub data: Vec<u8>,
}

impl GrayBuffer {
    /// The sample array holds exactly one value per pixel.
    pub open spec fn wf(&self) -> bool {
        self.data@.len() == self.width * self.height
    }

    /// The sample at column `x`, row `y`.
    pub open spec fn at(&self, x: int, y: int) -> u8 {
        self.data@[y * self.width + x]
    }

    /// Whether `(x, y)` is a pixel of the grid that is fully on.
    pub open spec fn on_at(&self, x: int, y: int) -> bool {
        0 <= x < self.width && 0 <= y < self.height && self.at(x, y) == 255
    }

    /// A `width` by `height` grid of zeros.
    pub fn new(width: u32, height: u32) -> (r: GrayBuffer)
        requires
            width * height <= usize::MAX,
        ensures
            r.wf(),
            r.width == width,
            r.height == height,
            forall|i: int| 0 <= i < r.data@.len() ==> r.data@[i] == 0,
    {
        let n: usize = (width as usize) * (height as usize);
        let mut data: Vec<u8> = Vec::new();
        let mut i: usize = 0;
        while i < n
            invariant
                i <= n,
                data@.len() == i,
                forall|j: int| 0 <= j < i ==> data@[j] == 0,
            decreases n - i,
        {
            data.push(0);
            i = i + 1;
        }
        GrayBuffer { width, height, data }
    }

    /// The position of pixel `(x, y)` in the sample array.
    pub fn index(&self, x: u32, y: u32) -> (r: usize)
        requires
            self.wf(),
            x < self.width,
            y < self.height,
        ensures
            r == y * self.width + x,
            r < self.data@.len(),
    {
        let n = self.data.len();
        proof {
            lemma_index_in_grid(x as int, y as int, self.width as int, self.height as int);
        }
        (y as usize) * (self.width as usize) + (x as usize)
    }

    pub fn get_pixel(&self, x: u32, y: u32) -> (r: u8)
        requires
            self.wf(),
            x < self.width,
            y < self.height,
        ensures
            r == self.at(x as int, y as int),
    {
        self.data[self.index(x, y)]
    }
}

pub proof fn lemma_index_in_grid(x: int, y: int, w: int, h: int)
    requires
        0 <= x < w,
        0 <= y < h,
    ensures
        0 <= y * w + x < w * h,
{
    assert(y * w + x < w * h) by (nonlinear_arith)
        requires 0 <= x < w, 0 <= y < h;
    assert(0 <= y * w) by (nonlinear_arith)
        requires 0 <= y, 0 <= w;
}

/// Replaces every sample `v` with `255 - v`.
pub fn invert(img: &mut GrayBuffer)
    ensures
        final(img).width == old(img).width,
        final(img).height == old(img).height,
        final(img).data@.len() == old(img).data@.len(),
        forall|i: int|
            0 <= i < old(img).data@.len() ==> #[trigger] final(img).data@[i] == 255 - old(img).data@[i],
{
    let n = img.data.len();
    let mut i: usize = 0;
    while i < n
        invariant
            i <= n,
            n == old(img).data@.len(),
            img.width == old(img).width,
            img.height == old(img).height,
            img.data@.len() == n,
            forall|j: int| 0 <= j < i ==> #[trigger] img.data@[j] == 255 - old(img).data@[j],
            forall|j: int| i <= j < n ==> #[trigger] img.data@[j] == old(img).data@[j],
        decreases n - i,
    {
        let v = img.data[i];
        img.data.set(i, 255 - v);
        i = i + 1;
    }
}

/// The threshold rule: above 127 is on, anything else is off.
pub open spec fn binary_of(v: u8) -> u8 {
    if v > 127 { 255 } else { 0 }
}

/// Sets each sample to 255 if it is above 127, else to 0.
pub fn binarize(img: &mut GrayBuffer)
    ensures
        final(img).width == old(img).width,
        final(img).height == old(img).height,
        final(img).data@.len() == old(img).data@.len(),
        forall|i: int|
            0 <= i < old(img).data@.len() ==> #[trigger] final(img).data@[i] == binary_of(old(img).data@[i]),
{
    let n = img.data.len();
    let mut i: usize = 0;
    while i < n
        invariant
            i <= n,
            n == old(img).data@.len(),
            img.width == old(img).width,
            img.height == old(img).height,
            img.data@.len() == n,
            forall|j: int| 0 <= j < i ==> #[trigger] img.data@[j] == binary_of(old(img).data@[j]),
            forall|j: int| i <= j < n ==> #[trigger] img.data@[j] == old(img).data@[j],
        decreases n - i,
    {
        let v = img.data[i];
        img.data.set(i, if v > 127 { 255 } else { 0 });
        i = i + 1;
    }
}

/// The sample of `img` placed inside a border of `pad` zero pixels, at
/// `(x, y)` of the larger grid.
pub open spec fn padded_at(img: GrayBuffer, pad: int, x: int, y: int) -> u8 {
    if pad <= x < pad + img.width && pad <= y < pad + img.height {
        img.at(x - pad, y - pad)
    } else {
        0
    }
}

/// A grid `2 * pad` wider and higher than `img`, holding `img` at offset
/// `(pad, pad)` and zeros around it.
pub fn pad_border(img: &GrayBuffer, pad: u32) -> (r: GrayBuffer)
    requires
        img.wf(),
        img.width + 2 * pad <= u32::MAX,
        img.height + 2 * pad <= u32::MAX,
        (img.width + 2 * pad) * (img.height + 2 * pad) <= usize::MAX,
    ensures
        r.wf(),
        r.width == img.width + 2 * pad,
        r.height == img.height + 2 * pad,
        forall|x: int, y: int|
            0 <= x < r.width && 0 <= y < r.height ==> #[trigger] r.at(x, y) == padded_at(
                *img,
                pad as int,
                x,
                y,
            ),
{
    let w = img.width + 2 * pad;
    let h = img.height + 2 * pad;
    let mut out = GrayBuffer::new(w, h);
    assert forall|px: int, py: int| 0 <= px < w && 0 <= py < h implies #[trigger] out.at(px, py) == 0 by {
        lemma_index_in_grid(px, py, w as int, h as int);
    }
    let mut y: u32 = 0;
    while y < img.height
        invariant
            img.wf(),
            out.wf(),
            out.width == w,
            out.height == h,
            w == img.width + 2 * pad,
            h == img.height + 2 * pad,
            y <= img.height,
            forall|px: int, py: int|
                0 <= px < w && 0 <= py < h ==> #[trigger] out.at(px, py) == (if pad <= py < pad + y {
                    padded_at(*img, pad as int, px, py)
                } else {
                    0
                }),
        decreases img.height - y,
    {
        let mut x: u32 = 0;
        while x < img.width
            invariant
                img.wf(),
                out.wf(),
                out.width == w,
                out.height == h,
                w == img.width + 2 * pad,
                h == img.height + 2 * pad,
                y < img.height,
                x <= img.width,
                forall|px: int, py: int|
                    0 <= px < w && 0 <= py < h ==> #[trigger] out.at(px, py) == (if pad <= py < pad
                        + y || (py == pad + y && pad <= px < pad + x) {
                        padded_at(*img, pad as int, px, py)
                    } else {
                        0
                    }),
            decreases img.width - x,
        {
            let v = img.get_pixel(x, y);
            let i = out.index(x + pad, y + pad);
            let ghost before = out;
            out.data.set(i, v);
            assert forall|px: int, py: int|
                0 <= px < w && 0 <= py < h implies #[trigger] out.at(px, py) == (if pad <= py < pad
                    + y || (py == pad + y && pad <= px < pad + x + 1) {
                    padded_at(*img, pad as int, px, py)
                } else {
                    0
                }) by {
                lemma_index_in_grid(px, py, w as int, h as int);
                if py * w + px == (y + pad) * w + (x + pad) {
                    lemma_index_unique(px, py, (x + pad) as int, (y + pad) as int, w as int);
                }
                assert(out.at(px, py) == before.at(px, py) || (px == x + pad && py == y + pad));
            }
            x = x + 1;
        }
        y = y + 1;
    }
    out
}

pub proof fn lemma_index_unique(x1: int, y1: int, x2: int, y2: int, w: int)
    requires
        0 <= x1 < w,
        0 <= x2 < w,
        0 <= y1,
        0 <= y2,
        y1 * w + x1 == y2 * w + x2,
    ensures
        x1 == x2,
        y1 == y2,
{
    if y1 < y2 {
        assert(y1 * w + w <= y2 * w) by (nonlinear_arith)
            requires y1 < y2, 0 <= w;
    } else if y2 < y1 {
        assert(y2 * w + w <= y1 * w) by (nonlinear_arith)
            requires y2 < y1, 0 <= w;
    }
}

} // verus!

//! Heights from intensities, and the closed solid built over a grid: one
//! vertex per pixel, two triangles per 2x2 block, and four side walls down to
//! a flat base.

use vstd::prelude::*;
use vstd::arithmetic::div_mod::{lemma_div_is_ordered, lemma_div_by_multiple, lemma_fundamental_div_mod_converse};
use crate::mesh::{Face, Mesh, VertIdx, Vertex, quad_split, valid_face};
use crate::raster::{GrayBuffer, lemma_index_in_grid};

verus! {

/// Clearance in micrometres between the base and the lowest point of the
/// relief.
pub const BASE_OFFSET_UM: u64 = 4000;

/// The height of a pixel of intensity `v`: `height * v / 255` above the
/// clearance, rounded down.
pub open spec fn z_of(v: int, height: int) -> int {
    height * v / 255 + BASE_OFFSET_UM
}

/// Grid position `p` scaled so that the longer side `m` spans `edge`.
pub open spec fn scaled(p: int, edge: int, m: int) -> int {
    p * edge / m
}

pub open spec fn max_dim(g: GrayBuffer) -> int {
    if g.width >= g.height { g.width as int } else { g.height as int }
}

pub open spec fn vi(i: int) -> VertIdx {
    VertIdx { idx: i as u32 }
}

/// The surface vertex of pixel `(x, y)`.
pub open spec fn top_vertex(g: GrayBuffer, edge: int, height: int, x: int, y: int) -> Vertex {
    Vertex {
        x: scaled(x, edge, max_dim(g)) as u64,
        y: scaled(y, edge, max_dim(g)) as u64,
        z: z_of(g.at(x, y) as int, height) as u64,
    }
}

/// A vertex of the base at grid corner `(x, y)`.
pub open spec fn base_vertex(g: GrayBuffer, edge: int, x: int, y: int) -> Vertex {
    Vertex { x: scaled(x, edge, max_dim(g)) as u64, y: scaled(y, edge, max_dim(g)) as u64, z: 0 }
}

/// The vertices of the solid: the surface in row-major order, so that pixel
/// `(x, y)` has handle `y * width + x`, then the base corners upper left,
/// upper right, lower left and lower right.
pub open spec fn grid_verts(g: GrayBuffer, edge: int, height: int) -> Seq<Vertex> {
    let w = g.width as int;
    let h = g.height as int;
    Seq::new((w * h) as nat, |i: int| top_vertex(g, edge, height, i % w, i / w)) + seq![
        base_vertex(g, edge, 0, 0),
        base_vertex(g, edge, w, 0),
        base_vertex(g, edge, 0, h),
        base_vertex(g, edge, w, h),
    ]
}

/// The two triangles of the block whose upper left pixel is `(x, y)`.
pub open spec fn block_faces(verts: Seq<Vertex>, w: int, x: int, y: int) -> Seq<Face> {
    quad_split(verts, vi(y * w + x), vi(y * w + x + 1), vi((y + 1) * w + x + 1), vi((y + 1) * w + x))
}

/// The triangles of the first `n` blocks of row `y`.
pub open spec fn row_faces(verts: Seq<Vertex>, w: int, y: int, n: int) -> Seq<Face>
    decreases n,
{
    if n <= 0 {
        Seq::empty()
    } else {
        row_faces(verts, w, y, n - 1) + block_faces(verts, w, n - 1, y)
    }
}

/// The triangles of the first `rows` rows of blocks.
pub open spec fn top_faces(verts: Seq<Vertex>, w: int, rows: int) -> Seq<Face>
    decreases rows,
{
    if rows <= 0 {
        Seq::empty()
    } else {
        top_faces(verts, w, rows - 1) + row_faces(verts, w, rows - 1, w - 1)
    }
}

/// The four walls that join the surface's outer corners to the base.
pub open spec fn side_faces(verts: Seq<Vertex>, w: int, h: int) -> Seq<Face> {
    let ul = vi(w * h);
    let ur = vi(w * h + 1);
    let ll = vi(w * h + 2);
    let lr = vi(w * h + 3);
    quad_split(verts, vi(0), vi((h - 1) * w), ll, ul) + quad_split(verts, vi(w - 1), vi(0), ul, ur)
        + quad_split(verts, vi((h - 1) * w + w - 1), vi(w - 1), ur, lr) + quad_split(
        verts,
        vi((h - 1) * w),
        vi((h - 1) * w + w - 1),
        lr,
        ll,
    )
}

pub open spec fn grid_faces(verts: Seq<Vertex>, w: int, h: int) -> Seq<Face> {
    top_faces(verts, w, h - 1) + side_faces(verts, w, h)
}

/// A grid that can be meshed: at least 2 by 2, with all its handles
/// fitting in a `u32`.
pub open spec fn meshable(g: GrayBuffer) -> bool {
    &&& g.wf()
    &&& g.width >= 2
    &&& g.height >= 2
    &&& g.width * g.height * 3 + 8 <= u32::MAX
}

/// The height of a pixel of intensity `v`.
pub fn pix_to_z(v: u8, height_um: u32) -> (z: u64)
    ensures
        z == z_of(v as int, height_um as int),
        z <= height_um + BASE_OFFSET_UM,
{
    assert((height_um as u64) * (v as u64) <= 0xffff_ffff * 255) by (nonlinear_arith)
        requires height_um <= 0xffff_ffff, v <= 255;
    let p: u64 = (height_um as u64) * (v as u64);
    assert(p <= (height_um as u64) * 255) by (nonlinear_arith)
        requires p == height_um * v, v <= 255;
    proof {
        lemma_div_is_ordered(p as int, height_um * 255, 255);
        lemma_div_by_multiple(height_um as int, 255);
    }
    p / 255 + BASE_OFFSET_UM
}

fn scale(p: u32, edge: u32, m: u32) -> (r: u64)
    requires
        p <= m,
        m > 0,
    ensures
        r == scaled(p as int, edge as int, m as int),
        r <= edge,
{
    assert((p as u64) * (edge as u64) <= 0xffff_ffff * 0xffff_ffff) by (nonlinear_arith)
        requires p <= 0xffff_ffff, edge <= 0xffff_ffff;
    let n: u64 = (p as u64) * (edge as u64);
    assert(n <= (m as u64) * (edge as u64)) by (nonlinear_arith)
        requires n == p * edge, p <= m;
    assert(n <= 0xffff_ffff_ffff_ffff) by (nonlinear_arith)
        requires n <= m * edge, m <= 0xffff_ffff, edge <= 0xffff_ffff;
    proof {
        lemma_div_is_ordered(n as int, m * edge, m as int);
        lemma_div_by_multiple(edge as int, m as int);
        assert(m * edge == edge * m) by (nonlinear_arith);
    }
    n / (m as u64)
}

fn handle(x: u32, y: u32, w: u32, h: u32) -> (r: VertIdx)
    requires
        x < w,
        y < h,
        w * h <= u32::MAX,
    ensures
        r == vi(y * w + x),
        r.idx == y * w + x,
        y * w + x < w * h,
{
    proof {
        lemma_index_in_grid(x as int, y as int, w as int, h as int);
    }
    VertIdx::new(y * w + x)
}

proof fn lemma_row_len(verts: Seq<Vertex>, w: int, y: int, n: int)
    requires
        n >= 0,
    ensures
        row_faces(verts, w, y, n).len() == 2 * n,
    decreases n,
{
    if n > 0 {
        lemma_row_len(verts, w, y, n - 1);
    }
}

proof fn lemma_top_len(verts: Seq<Vertex>, w: int, rows: int)
    requires
        rows >= 0,
        w >= 1,
    ensures
        top_faces(verts, w, rows).len() == 2 * (w - 1) * rows,
    decreases rows,
{
    if rows > 0 {
        lemma_top_len(verts, w, rows - 1);
        lemma_row_len(verts, w, rows - 1, w - 1);
        assert(2 * (w - 1) * (rows - 1) + 2 * (w - 1) == 2 * (w - 1) * rows) by (nonlinear_arith);
    } else {
        assert(2 * (w - 1) * rows == 0) by (nonlinear_arith)
            requires rows == 0;
    }
}

/// Builds the solid over grid `g`, whose longer side spans `edge_um`: the
/// surface vertices at the heights of their pixels, each 2x2 block split
/// along its shorter diagonal, and four walls down to a base at height 0.
pub fn triangulate(g: &GrayBuffer, edge_um: u32, height_um: u32) -> (m: Mesh)
    requires
        meshable(*g),
    ensures
        m.wf(),
        m.vertices() == grid_verts(*g, edge_um as int, height_um as int),
        m.faces() == grid_faces(
            grid_verts(*g, edge_um as int, height_um as int),
            g.width as int,
            g.height as int,
        ),
{
    let w = g.width;
    let h = g.height;
    let md = if w >= h { w } else { h };
    let ghost e = edge_um as int;
    let ghost ht = height_um as int;
    let ghost verts = grid_verts(*g, e, ht);
    assert(w * h <= u32::MAX) by (nonlinear_arith)
        requires w * h * 3 + 8 <= u32::MAX;
    let mut mesh = Mesh::new();
    let mut y: u32 = 0;
    while y < h
        invariant
            meshable(*g),
            e == edge_um as int,
            ht == height_um as int,
            verts == grid_verts(*g, e, ht),
            w == g.width,
            h == g.height,
            md == max_dim(*g),
            w * h <= u32::MAX,
            y <= h,
            mesh.wf(),
            mesh.faces().len() == 0,
            mesh.vertices() == Seq::new((y * w) as nat, |i: int| top_vertex(*g, e, ht, i % w as int, i / w as int)),
        decreases h - y,
    {
        let mut x: u32 = 0;
        while x < w
            invariant
                meshable(*g),
                e == edge_um as int,
                ht == height_um as int,
                verts == grid_verts(*g, e, ht),
                w == g.width,
                h == g.height,
                md == max_dim(*g),
                w * h <= u32::MAX,
                y < h,
                x <= w,
                mesh.wf(),
                mesh.faces().len() == 0,
                mesh.vertices() == Seq::new((y * w + x) as nat, |i: int| top_vertex(*g, e, ht, i % w as int, i / w as int)),
            decreases w - x,
        {
            let hd = handle(x, y, w, h);
            let z = pix_to_z(g.get_pixel(x, y), height_um);
            let px = scale(x, edge_um, md);
            let py = scale(y, edge_um, md);
            mesh.add_vert(px, py, z);
            proof {
                lemma_fundamental_div_mod_converse((y * w + x) as int, w as int, y as int, x as int);
                let k = (y * w + x) as int;
                assert(k % w as int == x && k / w as int == y);
                assert(mesh.vertices()[k] == Vertex { x: px, y: py, z });
                assert(mesh.vertices()[k] == top_vertex(*g, e, ht, x as int, y as int));
                assert(mesh.vertices() =~= Seq::new((y * w + x + 1) as nat, |i: int| top_vertex(*g, e, ht, i % w as int, i / w as int)));
            }
            x = x + 1;
        }
        assert(y * w + w == (y + 1) * w) by (nonlinear_arith);
        y = y + 1;
    }
    let ghost top = mesh.vertices();
    assert(h * w == w * h) by (nonlinear_arith);
    assert(top.len() == w * h);
    assert forall|i: int| 0 <= i < w * h implies #[trigger] top[i] == verts[i] by {}
    let mut y: u32 = 0;
    while y + 1 < h
        invariant
            meshable(*g),
            e == edge_um as int,
            ht == height_um as int,
            verts == grid_verts(*g, e, ht),
            w == g.width,
            h == g.height,
            w * h <= u32::MAX,
            y + 1 <= h,
            mesh.wf(),
            mesh.vertices() == top,
            top.len() == w * h,
            forall|i: int| 0 <= i < w * h ==> #[trigger] top[i] == verts[i],
            mesh.faces() == top_faces(verts, w as int, y as int),
        decreases h - y,
    {
        let mut x: u32 = 0;
        while x + 1 < w
            invariant
                meshable(*g),
                e == edge_um as int,
                ht == height_um as int,
                verts == grid_verts(*g, e, ht),
                w == g.width,
                h == g.height,
                w * h <= u32::MAX,
                y + 1 < h,
                x + 1 <= w,
                mesh.wf(),
                mesh.vertices() == top,
                top.len() == w * h,
                forall|i: int| 0 <= i < w * h ==> #[trigger] top[i] == verts[i],
                mesh.faces() == top_faces(verts, w as int, y as int) + row_faces(verts, w as int, y as int, x as int),
            decreases w - x,
        {
            let a = handle(x, y, w, h);
            let b = handle(x + 1, y, w, h);
            let c = handle(x + 1, y + 1, w, h);
            let d = handle(x, y + 1, w, h);
            proof {
                lemma_top_len(verts, w as int, y as int);
                lemma_row_len(verts, w as int, y as int, x as int);
                assert(2 * (w - 1) * y + 2 * x + 2 <= w * h * 3) by (nonlinear_arith)
                    requires x + 1 < w, y + 1 < h;
            }
            mesh.add_quad(a, b, c, d);
            proof {
                assert(top_faces(verts, w as int, y as int) + row_faces(verts, w as int, y as int, x + 1)
                    =~= top_faces(verts, w as int, y as int) + row_faces(verts, w as int, y as int, x as int) + block_faces(verts, w as int, x as int, y as int));
            }
            x = x + 1;
        }
        assert(mesh.faces() =~= top_faces(verts, w as int, y + 1));
        y = y + 1;
    }
    proof {
        lemma_top_len(verts, w as int, (h - 1) as int);
        assert(2 * (w - 1) * (h - 1) + 8 <= w * h * 3 + 8) by (nonlinear_arith)
            requires w >= 2, h >= 2;
    }
    let ul = mesh.add_vert(0, 0, 0);
    let sw = scale(w, edge_um, md);
    let sh = scale(h, edge_um, md);
    let ur = mesh.add_vert(sw, 0, 0);
    let ll = mesh.add_vert(0, sh, 0);
    let lr = mesh.add_vert(sw, sh, 0);
    proof {
        assert(scaled(0, e, md as int) == 0);
        assert(mesh.vertices() =~= verts);
    }
    let first = handle(0, 0, w, h);
    let last_row = handle(0, h - 1, w, h);
    let last_col = handle(w - 1, 0, w, h);
    let far = handle(w - 1, h - 1, w, h);
    mesh.add_quad(first, last_row, ll, ul);
    mesh.add_quad(last_col, first, ul, ur);
    mesh.add_quad(far, last_col, ur, lr);
    mesh.add_quad(last_row, far, lr, ll);
    assert(mesh.faces() =~= grid_faces(verts, w as int, h as int));
    mesh
}

/// Raising a pixel's intensity never lowers its height.
pub proof fn lemma_height_monotone(v1: int, v2: int, height: int)
    requires
        0 <= v1 <= v2 <= 255,
        height >= 0,
    ensures
        z_of(v1, height) <= z_of(v2, height),
{
    assert(height * v1 <= height * v2) by (nonlinear_arith)
        requires v1 <= v2, height >= 0;
    lemma_div_is_ordered(height * v1, height * v2, 255);
}

/// The solid over a `w` by `h` grid has `w * h + 4` vertices and
/// `2 * (w - 1) * (h - 1) + 8` faces.
pub proof fn lemma_mesh_counts(g: GrayBuffer, edge: int, height: int)
    requires
        meshable(g),
    ensures
        grid_verts(g, edge, height).len() == g.width * g.height + 4,
        grid_faces(grid_verts(g, edge, height), g.width as int, g.height as int).len() == 2 * (g.width
            - 1) * (g.height - 1) + 8,
{
    let w = g.width as int;
    let h = g.height as int;
    assert(w * h >= 0) by (nonlinear_arith)
        requires w >= 2, h >= 2;
    lemma_top_len(grid_verts(g, edge, height), w, h - 1);
}

proof fn lemma_row_in_range(verts: Seq<Vertex>, w: int, h: int, y: int, n: int)
    requires
        2 <= w,
        w * h * 3 + 8 <= u32::MAX,
        0 <= y < h - 1,
        0 <= n <= w - 1,
    ensures
        forall|i: int| 0 <= i < row_faces(verts, w, y, n).len() ==> valid_face(
            #[trigger] row_faces(verts, w, y, n)[i],
            (w * h + 4) as nat,
        ),
    decreases n,
{
    if n > 0 {
        lemma_row_in_range(verts, w, h, y, n - 1);
        let x = n - 1;
        assert((y + 1) * w + x + 1 < w * h) by (nonlinear_arith)
            requires 0 <= x < w - 1, 0 <= y < h - 1;
        assert(0 <= y * w + x) by (nonlinear_arith)
            requires 0 <= x, 0 <= y, w >= 0;
        let prev = row_faces(verts, w, y, n - 1);
        let bf = block_faces(verts, w, x, y);
        assert(y * w + x + 1 <= (y + 1) * w + x) by (nonlinear_arith)
            requires 0 <= x < w - 1, 0 <= y;
        assert(vi(y * w + x).idx < w * h + 4);
        assert(vi(y * w + x + 1).idx < w * h + 4);
        assert(vi((y + 1) * w + x + 1).idx < w * h + 4);
        assert(vi((y + 1) * w + x).idx < w * h + 4);
        assert forall|k: int| 0 <= k < bf.len() implies valid_face(#[trigger] bf[k], (w * h + 4) as nat) by {}
        assert forall|i: int| 0 <= i < row_faces(verts, w, y, n).len() implies valid_face(
            #[trigger] row_faces(verts, w, y, n)[i],
            (w * h + 4) as nat,
        ) by {
            if i < prev.len() {
                assert(row_faces(verts, w, y, n)[i] == prev[i]);
            } else {
                assert(row_faces(verts, w, y, n)[i] == bf[i - prev.len()]);
            }
        }
    }
}

/// Every face of the solid over a meshable grid refers to one of its
/// vertices.
pub proof fn lemma_faces_in_range(g: GrayBuffer, edge: int, height: int)
    requires
        meshable(g),
    ensures
        forall|i: int|
            0 <= i < grid_faces(grid_verts(g, edge, height), g.width as int, g.height as int).len()
                ==> valid_face(
                #[trigger] grid_faces(grid_verts(g, edge, height), g.width as int, g.height as int)[i],
                grid_verts(g, edge, height).len(),
            ),
{
    let w = g.width as int;
    let h = g.height as int;
    let verts = grid_verts(g, edge, height);
    assert(w * h * 3 + 8 <= u32::MAX);
    lemma_top_in_range(verts, w, h, h - 1);
    assert((h - 1) * w + w - 1 < w * h) by (nonlinear_arith)
        requires w >= 2, h >= 2;
    assert(0 <= (h - 1) * w) by (nonlinear_arith)
        requires w >= 2, h >= 2;
    assert(w * h >= 0) by (nonlinear_arith)
        requires w >= 2, h >= 2;
    let top = top_faces(verts, w, h - 1);
    let sides = side_faces(verts, w, h);
    assert forall|k: int| 0 <= k < sides.len() implies valid_face(#[trigger] sides[k], verts.len()) by {}
    assert forall|i: int| 0 <= i < grid_faces(verts, w, h).len() implies valid_face(
        #[trigger] grid_faces(verts, w, h)[i],
        verts.len(),
    ) by {
        if i < top.len() {
            assert(grid_faces(verts, w, h)[i] == top[i]);
        } else {
            assert(grid_faces(verts, w, h)[i] == sides[i - top.len()]);
        }
    }
}

proof fn lemma_top_in_range(verts: Seq<Vertex>, w: int, h: int, rows: int)
    requires
        2 <= w,
        w * h * 3 + 8 <= u32::MAX,
        0 <= rows <= h - 1,
    ensures
        forall|i: int| 0 <= i < top_faces(verts, w, rows).len() ==> valid_face(
            #[trigger] top_faces(verts, w, rows)[i],
            (w * h + 4) as nat,
        ),
    decreases rows,
{
    if rows > 0 {
        lemma_top_in_range(verts, w, h, rows - 1);
        lemma_row_in_range(verts, w, h, rows - 1, w - 1);
        let prev = top_faces(verts, w, rows - 1);
        let rf = row_faces(verts, w, rows - 1, w - 1);
        assert forall|i: int| 0 <= i < top_faces(verts, w, rows).len() implies valid_face(
            #[trigger] top_faces(verts, w, rows)[i],
            (w * h + 4) as nat,
        ) by {
            if i < prev.len() {
                assert(top_faces(verts, w, rows)[i] == prev[i]);
            } else {
                assert(top_faces(verts, w, rows)[i] == rf[i - prev.len()]);
            }
        }
    }
}

} // verus!

//! An append-only triangle mesh with a vertex-to-face adjacency index.

use vstd::prelude::*;

verus! {

/// Coordinates of every vertex stay below this bound, so that squared
/// distances between two vertices fit comfortably in a `u128`.
pub const COORD_LIMIT: u64 = 0x100_0000_0000;

/// A point in space; each coordinate is a length in micrometres.
#[derive(Clone, Copy, Debug, PartialEq, Eq, Structural)]
pub struct Vertex {
    pub x: u64,
    pub y: u64,
    pub z: u64,
}

/// A handle to a vertex: its position in the mesh's vertex list.
#[derive(Clone, Copy, Debug, PartialEq, Eq, Structural)]
pub struct VertIdx {
    pub idx: u32,
}

impl VertIdx {
    pub fn new(idx: u32) -> (r: VertIdx)
        ensures
            r.idx == idx,
    {
        VertIdx { idx }
    }
}

/// One triangle, given by three vertex handles in winding order.
#[derive(Clone, Copy, Debug, PartialEq, Eq, Structural)]
pub struct Face {
    pub a: VertIdx,
    pub b: VertIdx,
    pub c: VertIdx,
}

impl Face {
    pub fn tri(a: VertIdx, b: VertIdx, c: VertIdx) -> (r: Face)
        ensures
            r == (Face { a, b, c }),
    {
        Face { a, b, c }
    }
}

impl Face {
    /// Whether the triangle uses vertex `v`.
    pub open spec fn has(self, v: int) -> bool {
        self.a.idx == v || self.b.idx == v || self.c.idx == v
    }
}

pub open spec fn sq(d: int) -> int {
    d * d
}

/// Squared Euclidean distance between two vertices.
pub open spec fn dist_sq(p: Vertex, q: Vertex) -> int {
    sq(p.x - q.x) + sq(p.y - q.y) + sq(p.z - q.z)
}

pub open spec fn in_limit(v: Vertex) -> bool {
    v.x < COORD_LIMIT && v.y < COORD_LIMIT && v.z < COORD_LIMIT
}

/// The two triangles that split the quad `a b c d` along its shorter
/// diagonal; on a tie the diagonal `a`-`c` is taken.
pub open spec fn quad_split(
    verts: Seq<Vertex>,
    a: VertIdx,
    b: VertIdx,
    c: VertIdx,
    d: VertIdx,
) -> Seq<Face> {
    if dist_sq(verts[a.idx as int], verts[c.idx as int]) <= dist_sq(
        verts[b.idx as int],
        verts[d.idx as int],
    ) {
        seq![Face { a, b, c }, Face { a, b: c, c: d }]
    } else {
        seq![Face { a: b, b: c, c: d }, Face { a, b, c: d }]
    }
}

/// A triangle mesh. Vertices and faces are only ever appended; for each
/// vertex the mesh keeps the ids of the faces that use it.
pub struct Mesh {
    verts: Vec<Vertex>,
    faces: Vec<Face>,
    vert_to_face: Vec<Vec<u32>>,
}

impl Mesh {
    /// The vertices, in insertion order.
    pub closed spec fn vertices(&self) -> Seq<Vertex> {
        self.verts@
    }

    /// The faces, in insertion order; a face's id is its position.
    pub closed spec fn faces(&self) -> Seq<Face> {
        self.faces@
    }

    /// The ids of the faces that use vertex `v`.
    pub closed spec fn faces_of(&self, v: int) -> Seq<u32> {
        self.vert_to_face@[v]@
    }

    /// Every face refers to existing vertices, coordinates are bounded, and
    /// the adjacency index is exactly the inverse of the face list.
    pub closed spec fn wf(&self) -> bool {
        &&& self.verts@.len() == self.vert_to_face@.len()
        &&& self.verts@.len() <= u32::MAX
        &&& self.faces@.len() <= u32::MAX
        &&& forall|i: int| 0 <= i < self.verts@.len() ==> in_limit(#[trigger] self.verts@[i])
        &&& forall|f: int|
            0 <= f < self.faces@.len() ==> valid_face(#[trigger] self.faces@[f], self.verts@.len())
        &&& forall|v: int, f: int|
            0 <= v < self.verts@.len() && 0 <= f < self.faces@.len() ==> (
            #[trigger] self.vert_to_face@[v]@.contains(f as u32) <==> #[trigger] self.faces@[f].has(v))
        &&& forall|v: int, j: int|
            0 <= v < self.verts@.len() && 0 <= j < self.vert_to_face@[v]@.len()
                ==> (#[trigger] self.vert_to_face@[v]@[j]) < self.faces@.len()
    }

    pub fn new() -> (r: Mesh)
        ensures
            r.wf(),
            r.vertices() == Seq::<Vertex>::empty(),
            r.faces() == Seq::<Face>::empty(),
    {
        Mesh { verts: Vec::new(), faces: Vec::new(), vert_to_face: Vec::new() }
    }

    pub fn num_verts(&self) -> (r: usize)
        ensures
            r == self.vertices().len(),
            self.wf() ==> r <= u32::MAX,
    {
        self.verts.len()
    }

    pub fn num_faces(&self) -> (r: usize)
        ensures
            r == self.faces().len(),
            self.wf() ==> r <= u32::MAX,
    {
        self.faces.len()
    }

    pub fn get_vert(&self, v: VertIdx) -> (r: Vertex)
        requires
            v.idx < self.vertices().len(),
        ensures
            r == self.vertices()[v.idx as int],
    {
        self.verts[v.idx as usize]
    }

    pub fn get_face(&self, f: usize) -> (r: Face)
        requires
            f < self.faces().len(),
        ensures
            r == self.faces()[f as int],
    {
        self.faces[f]
    }

    /// The ids of the faces that use vertex `v`, in the order they were added.
    pub fn faces_of_vert(&self, v: VertIdx) -> (r: &Vec<u32>)
        requires
            self.wf(),
            v.idx < self.vertices().len(),
        ensures
            r@ == self.faces_of(v.idx as int),
    {
        &self.vert_to_face[v.idx as usize]
    }

    /// Appends a vertex and returns its handle, the next free position.
    pub fn add_vert(&mut self, x: u64, y: u64, z: u64) -> (r: VertIdx)
        requires
            old(self).wf(),
            old(self).vertices().len() < u32::MAX,
            x < COORD_LIMIT,
            y < COORD_LIMIT,
            z < COORD_LIMIT,
        ensures
            final(self).wf(),
            final(self).vertices() == old(self).vertices().push(Vertex { x, y, z }),
            final(self).faces() == old(self).faces(),
            r.idx == old(self).vertices().len(),
    {
        let ghost n = self.verts@.len();
        self.verts.push(Vertex { x, y, z });
        self.vert_to_face.push(Vec::new());
        assert(self.vert_to_face@[n as int]@ == Seq::<u32>::empty());
        assert forall|v: int, f: int|
            0 <= v < self.verts@.len() && 0 <= f < self.faces@.len() implies (
            #[trigger] self.vert_to_face@[v]@.contains(f as u32) <==> #[trigger] self.faces@[f].has(v)) by {
            if v == n {
                assert(valid_face(self.faces@[f], n));
            }
        }
        VertIdx { idx: (self.verts.len() - 1) as u32 }
    }

    /// Appends a face and records it under each of its vertices; returns
    /// its id.
    pub fn add_face(&mut self, face: Face) -> (r: u32)
        requires
            old(self).wf(),
            old(self).faces().len() < u32::MAX,
            valid_face(face, old(self).vertices().len()),
        ensures
            final(self).wf(),
            final(self).vertices() == old(self).vertices(),
            final(self).faces() == old(self).faces().push(face),
            r == old(self).faces().len(),
            forall|v: int|
                0 <= v < old(self).vertices().len() && !face.has(v) ==> #[trigger] final(self).faces_of(v)
                    == old(self).faces_of(v),
            forall|v: int|
                0 <= v < old(self).vertices().len() && face.has(v) ==> {
                    &&& #[trigger] final(self).faces_of(v).len() > old(self).faces_of(v).len()
                    &&& final(self).faces_of(v).subrange(0, old(self).faces_of(v).len() as int)
                        == old(self).faces_of(v)
                    &&& forall|j: int|
                        old(self).faces_of(v).len() <= j < final(self).faces_of(v).len()
                            ==> final(self).faces_of(v)[j] == r
                },
    {
        let idx: u32 = self.faces.len() as u32;
        self.faces.push(face);
        let ghost t0 = self.vert_to_face@;
        self.record(face.a, idx);
        let ghost t1 = self.vert_to_face@;
        self.record(face.b, idx);
        let ghost t2 = self.vert_to_face@;
        self.record(face.c, idx);
        let ghost t3 = self.vert_to_face@;
        assert forall|v: int|
            0 <= v < self.verts@.len() && face.has(v) implies {
                &&& #[trigger] self.vert_to_face@[v]@.len() > t0[v]@.len()
                &&& self.vert_to_face@[v]@.subrange(0, t0[v]@.len() as int) == t0[v]@
                &&& forall|j: int|
                    t0[v]@.len() <= j < self.vert_to_face@[v]@.len() ==> self.vert_to_face@[v]@[j] == idx
            } by {
            assert(self.vert_to_face@[v]@.subrange(0, t0[v]@.len() as int) =~= t0[v]@);
        }
        assert forall|v: int, f: int|
            0 <= v < self.verts@.len() && 0 <= f < self.faces@.len() implies (
            #[trigger] self.vert_to_face@[v]@.contains(f as u32) <==> #[trigger] self.faces@[f].has(v)) by {
            lemma_push_contains(t0[v]@, idx, f as u32);
            lemma_push_contains(t1[v]@, idx, f as u32);
            lemma_push_contains(t2[v]@, idx, f as u32);
            if f < idx {
                assert(self.faces@[f] == old(self).faces@[f]);
                if t0[v]@.contains(idx) {
                    let j = choose|j: int| 0 <= j < t0[v]@.len() && t0[v]@[j] == idx;
                    assert(t0[v]@[j] < idx);
                }
            }
        }
        assert forall|v: int, j: int|
            0 <= v < self.verts@.len() && 0 <= j < self.vert_to_face@[v]@.len()
                implies (#[trigger] self.vert_to_face@[v]@[j]) < self.faces@.len() by {
            if j < t2[v]@.len() {
                if j < t1[v]@.len() {
                    if j < t0[v]@.len() {
                        assert(t0[v]@[j] < idx);
                    }
                }
            }
        }
        assert forall|f: int|
            0 <= f < self.faces@.len() implies valid_face(#[trigger] self.faces@[f], self.verts@.len()) by {
            if f < idx {
                assert(self.faces@[f] == old(self).faces@[f]);
            }
        }
        idx
    }

    /// Splits the quad `a b c d` into two triangles along its shorter
    /// diagonal (`a`-`c` on a tie) and appends them.
    pub fn add_quad(&mut self, a: VertIdx, b: VertIdx, c: VertIdx, d: VertIdx)
        requires
            old(self).wf(),
            old(self).faces().len() + 2 <= u32::MAX,
            a.idx < old(self).vertices().len(),
            b.idx < old(self).vertices().len(),
            c.idx < old(self).vertices().len(),
            d.idx < old(self).vertices().len(),
        ensures
            final(self).wf(),
            final(self).vertices() == old(self).vertices(),
            final(self).faces() == old(self).faces() + quad_split(old(self).vertices(), a, b, c, d),
    {
        let av = self.get_vert(a);
        let bv = self.get_vert(b);
        let cv = self.get_vert(c);
        let dv = self.get_vert(d);
        if dist(av, cv) <= dist(bv, dv) {
            self.add_face(Face::tri(a, b, c));
            self.add_face(Face::tri(a, c, d));
        } else {
            self.add_face(Face::tri(b, c, d));
            self.add_face(Face::tri(a, b, d));
        }
        assert(self.faces@ =~= old(self).faces@ + quad_split(old(self).verts@, a, b, c, d));
    }

    /// Adds face `f` to the list of vertex `v`.
    fn record(&mut self, v: VertIdx, f: u32)
        requires
            v.idx < old(self).verts@.len(),
            old(self).verts@.len() == old(self).vert_to_face@.len(),
        ensures
            final(self).verts == old(self).verts,
            final(self).faces == old(self).faces,
            final(self).vert_to_face@.len() == old(self).vert_to_face@.len(),
            forall|u: int| 0 <= u < old(self).vert_to_face@.len() && u != v.idx
                ==> #[trigger] final(self).vert_to_face@[u]@ == old(self).vert_to_face@[u]@,
            final(self).vert_to_face@[v.idx as int]@ == old(self).vert_to_face@[v.idx as int]@.push(f),
    {
        let mut list: Vec<u32> = Vec::new();
        self.vert_to_face.set_and_swap(v.idx as usize, &mut list);
        list.push(f);
        self.vert_to_face.set_and_swap(v.idx as usize, &mut list);
    }
}

fn diff_sq(p: u64, q: u64) -> (r: u128)
    requires
        p < COORD_LIMIT,
        q < COORD_LIMIT,
    ensures
        r == sq(p - q),
        r < 0x1_0000_0000_0000_0000_0000,
{
    let d: u64 = if p >= q { p - q } else { q - p };
    assert(sq(p - q) == d * d) by (nonlinear_arith)
        requires d == p - q || d == q - p;
    assert(d * d < 0x1_0000_0000_0000_0000_0000) by (nonlinear_arith)
        requires d < 0x100_0000_0000;
    (d as u128) * (d as u128)
}

/// Squared distance between two vertices within the coordinate bound.
fn dist(p: Vertex, q: Vertex) -> (r: u128)
    requires
        in_limit(p),
        in_limit(q),
    ensures
        r == dist_sq(p, q),
{
    diff_sq(p.x, q.x) + diff_sq(p.y, q.y) + diff_sq(p.z, q.z)
}

/// In a well-formed mesh every face refers to existing vertices, and the
/// faces listed under each vertex are exactly the faces that use it.
pub proof fn lemma_adjacency(m: &Mesh)
    requires
        m.wf(),
    ensures
        forall|f: int| 0 <= f < m.faces().len() ==> valid_face(#[trigger] m.faces()[f], m.vertices().len()),
        forall|v: int, f: int|
            0 <= v < m.vertices().len() && 0 <= f < m.faces().len() ==> (#[trigger] m.faces_of(v).contains(
                f as u32,
            ) <==> #[trigger] m.faces()[f].has(v)),
        forall|v: int, j: int|
            0 <= v < m.vertices().len() && 0 <= j < m.faces_of(v).len() ==> (#[trigger] m.faces_of(v)[j])
                < m.faces().len(),
{
}

proof fn lemma_push_contains(s: Seq<u32>, x: u32, y: u32)
    ensures
        s.push(x).contains(y) <==> (s.contains(y) || y == x),
{
    if s.contains(y) {
        let i = choose|i: int| 0 <= i < s.len() && s[i] == y;
        assert(s.push(x)[i] == y);
    }
    if y == x {
        assert(s.push(x)[s.len() as int] == y);
    }
    if s.push(x).contains(y) {
        let i = choose|i: int| 0 <= i < s.len() + 1 && s.push(x)[i] == y;
        if i < s.len() {
            assert(s[i] == y);
        }
    }
}

pub open spec fn valid_face(f: Face, n: nat) -> bool {
    f.a.idx < n && f.b.idx < n && f.c.idx < n
}

} // verus!

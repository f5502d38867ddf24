//! The line-oriented text form of a mesh: a group header, one `v` line per
//! vertex and one `f` line per face with 1-based vertex numbers.

use vstd::prelude::*;
use crate::mesh::{Face, Mesh, Vertex};

verus! {

pub open spec fn digit_char(d: int) -> char {
    seq!['0', '1', '2', '3', '4', '5', '6', '7', '8', '9'][d]
}

/// The decimal digits of `n`, without leading zeros.
pub open spec fn dec(n: nat) -> Seq<char>
    decreases n,
{
    if n < 10 {
        seq![digit_char(n as int)]
    } else {
        dec(n / 10).push(digit_char((n % 10) as int))
    }
}

/// The fractional part of a length of `r` micrometres (`r < 1000`) written
/// in millimetres: empty when it is zero, else a point and up to three
/// digits with trailing zeros dropped.
pub open spec fn frac_text(r: nat) -> Seq<char> {
    if r == 0 {
        Seq::empty()
    } else if r % 100 == 0 {
        seq!['.', digit_char((r / 100) as int)]
    } else if r % 10 == 0 {
        seq!['.', digit_char((r / 100) as int), digit_char((r / 10 % 10) as int)]
    } else {
        seq![
            '.',
            digit_char((r / 100) as int),
            digit_char((r / 10 % 10) as int),
            digit_char((r % 10) as int),
        ]
    }
}

/// A length given in micrometres, written in millimetres.
pub open spec fn mm_text(um: nat) -> Seq<char> {
    dec(um / 1000) + frac_text(um % 1000)
}

pub open spec fn header_line() -> Seq<char> {
    seq!['g', ' ', 's', 't', 'a', 'm', 'p']
}

pub open spec fn vertex_line(v: Vertex) -> Seq<char> {
    seq!['v', ' '] + mm_text(v.x as nat) + seq![' '] + mm_text(v.y as nat) + seq![' '] + mm_text(
        v.z as nat,
    )
}

pub open spec fn face_line(f: Face) -> Seq<char> {
    seq!['f', ' '] + dec((f.a.idx + 1) as nat) + seq![' '] + dec((f.b.idx + 1) as nat) + seq![' '] + dec(
        (f.c.idx + 1) as nat,
    )
}

/// The lines of the text form, without their terminators.
pub open spec fn obj_lines(verts: Seq<Vertex>, faces: Seq<Face>) -> Seq<Seq<char>> {
    seq![header_line()] + verts.map_values(|v: Vertex| vertex_line(v)) + faces.map_values(
        |f: Face| face_line(f),
    )
}

/// Lines put one after another, each ended by a newline.
pub open spec fn join_lines(ls: Seq<Seq<char>>) -> Seq<char>
    decreases ls.len(),
{
    if ls.len() == 0 {
        Seq::empty()
    } else {
        join_lines(ls.drop_last()) + ls.last() + seq!['\n']
    }
}

/// The full text of a mesh.
pub open spec fn obj_text(verts: Seq<Vertex>, faces: Seq<Face>) -> Seq<char> {
    join_lines(obj_lines(verts, faces))
}

proof fn lemma_join_push(ls: Seq<Seq<char>>, l: Seq<char>)
    ensures
        join_lines(ls.push(l)) == join_lines(ls) + l + seq!['\n'],
{
    assert(ls.push(l).drop_last() =~= ls);
}

/// No character of `s` is a newline.
pub open spec fn one_line(s: Seq<char>) -> bool {
    forall|i: int| 0 <= i < s.len() ==> s[i] != '\n'
}

proof fn lemma_digit(d: int)
    requires
        0 <= d < 10,
    ensures
        digit_char(d) != '\n',
{
    let ds = seq!['0', '1', '2', '3', '4', '5', '6', '7', '8', '9'];
    assert(ds[0] == '0' && ds[1] == '1' && ds[2] == '2' && ds[3] == '3' && ds[4] == '4');
    assert(ds[5] == '5' && ds[6] == '6' && ds[7] == '7' && ds[8] == '8' && ds[9] == '9');
}

proof fn lemma_dec_line(n: nat)
    ensures
        dec(n).len() > 0,
        one_line(dec(n)),
    decreases n,
{
    lemma_digit((n % 10) as int);
    if n >= 10 {
        lemma_dec_line(n / 10);
    } else {
        lemma_digit(n as int);
    }
}

proof fn lemma_mm_line(um: nat)
    ensures
        one_line(mm_text(um)),
{
    lemma_dec_line(um / 1000);
    let r = um % 1000;
    lemma_digit((r / 100) as int);
    lemma_digit((r / 10 % 10) as int);
    lemma_digit((r % 10) as int);
}

/// The text of a mesh with `N` vertices and `M` faces is `1 + N + M`
/// non-empty lines, each ended by a newline: the group header, then one
/// `v` line per vertex, then one `f` line per face.
pub proof fn lemma_text_lines(verts: Seq<Vertex>, faces: Seq<Face>)
    ensures
        obj_text(verts, faces) == join_lines(obj_lines(verts, faces)),
        obj_lines(verts, faces).len() == 1 + verts.len() + faces.len(),
        forall|i: int|
            0 <= i < obj_lines(verts, faces).len() ==> #[trigger] obj_lines(verts, faces)[i].len() > 0
                && one_line(obj_lines(verts, faces)[i]),
        obj_lines(verts, faces)[0] == header_line(),
        forall|i: int| 1 <= i <= verts.len() ==> (#[trigger] obj_lines(verts, faces)[i])[0] == 'v',
        forall|i: int|
            verts.len() < i < obj_lines(verts, faces).len() ==> (#[trigger] obj_lines(verts, faces)[i])[0]
                == 'f',
{
    let ls = obj_lines(verts, faces);
    let n = verts.len() as int;
    assert forall|i: int| 0 <= i < ls.len() implies #[trigger] ls[i].len() > 0 && one_line(ls[i]) by {
        if 1 <= i <= n {
            let v = verts[i - 1];
            assert(ls[i] == vertex_line(v));
            lemma_mm_line(v.x as nat);
            lemma_mm_line(v.y as nat);
            lemma_mm_line(v.z as nat);
        } else if n < i {
            let f = faces[i - 1 - n];
            assert(ls[i] == face_line(f));
            lemma_dec_line((f.a.idx + 1) as nat);
            lemma_dec_line((f.b.idx + 1) as nat);
            lemma_dec_line((f.c.idx + 1) as nat);
        }
    }
    assert forall|i: int| 1 <= i <= n implies (#[trigger] ls[i])[0] == 'v' by {
        assert(ls[i] == vertex_line(verts[i - 1]));
    }
    assert forall|i: int| n < i < ls.len() implies (#[trigger] ls[i])[0] == 'f' by {
        assert(ls[i] == face_line(faces[i - 1 - n]));
    }
}

fn digit_str(d: u64) -> (r: &'static str)
    requires
        d < 10,
    ensures
        r@ == seq![digit_char(d as int)],
{
    proof {
        reveal_strlit("0");
        reveal_strlit("1");
        reveal_strlit("2");
        reveal_strlit("3");
        reveal_strlit("4");
        reveal_strlit("5");
        reveal_strlit("6");
        reveal_strlit("7");
        reveal_strlit("8");
        reveal_strlit("9");
    }
    match d {
        0 => "0",
        1 => "1",
        2 => "2",
        3 => "3",
        4 => "4",
        5 => "5",
        6 => "6",
        7 => "7",
        8 => "8",
        _ => "9",
    }
}

/// Appends the decimal digits of `n`.
pub fn push_dec(out: &mut String, n: u64)
    ensures
        final(out)@ == old(out)@ + dec(n as nat),
    decreases n,
{
    if n >= 10 {
        push_dec(out, n / 10);
    }
    out.append(digit_str(n % 10));
    assert(final(out)@ =~= old(out)@ + dec(n as nat));
}

/// Appends a length of `um` micrometres written in millimetres.
pub fn push_mm(out: &mut String, um: u64)
    ensures
        final(out)@ == old(out)@ + mm_text(um as nat),
{
    push_dec(out, um / 1000);
    let r = um % 1000;
    if r != 0 {
        out.append(".");
        proof { reveal_strlit("."); }
        out.append(digit_str(r / 100));
        if r % 100 != 0 {
            out.append(digit_str(r / 10 % 10));
            if r % 10 != 0 {
                out.append(digit_str(r % 10));
            }
        }
    }
    assert(final(out)@ =~= old(out)@ + mm_text(um as nat));
}

fn push_vertex_line(out: &mut String, v: Vertex)
    ensures
        final(out)@ == old(out)@ + vertex_line(v) + seq!['\n'],
{
    proof {
        reveal_strlit("v ");
        reveal_strlit(" ");
        reveal_strlit("\n");
    }
    out.append("v ");
    push_mm(out, v.x);
    out.append(" ");
    push_mm(out, v.y);
    out.append(" ");
    push_mm(out, v.z);
    out.append("\n");
    assert(final(out)@ =~= old(out)@ + vertex_line(v) + seq!['\n']);
}

fn push_face_line(out: &mut String, f: Face)
    ensures
        final(out)@ == old(out)@ + face_line(f) + seq!['\n'],
{
    proof {
        reveal_strlit("f ");
        reveal_strlit(" ");
        reveal_strlit("\n");
    }
    out.append("f ");
    push_dec(out, f.a.idx as u64 + 1);
    out.append(" ");
    push_dec(out, f.b.idx as u64 + 1);
    out.append(" ");
    push_dec(out, f.c.idx as u64 + 1);
    out.append("\n");
    assert(final(out)@ =~= old(out)@ + face_line(f) + seq!['\n']);
}

impl Mesh {
    /// Writes the mesh in its text form.
    pub fn generate_obj(&self) -> (r: String)
        requires
            self.wf(),
        ensures
            r@ == obj_text(self.vertices(), self.faces()),
    {
        let ghost verts = self.vertices();
        let ghost faces = self.faces();
        let mut out = String::from_str("g stamp\n");
        proof {
            reveal_strlit("g stamp\n");
            lemma_join_push(Seq::empty(), header_line());
            assert(join_lines(Seq::<Seq<char>>::empty()) == Seq::<char>::empty());
            assert(out@ =~= join_lines(seq![header_line()]));
        }
        let nv = self.num_verts();
        let mut i: usize = 0;
        while i < nv
            invariant
                nv == verts.len(),
                nv <= u32::MAX,
                i <= nv,
                self.wf(),
                verts == self.vertices(),
                out@ == join_lines(
                    seq![header_line()] + verts.subrange(0, i as int).map_values(|v: Vertex| vertex_line(v)),
                ),
            decreases nv - i,
        {
            let v = self.get_vert(crate::mesh::VertIdx::new(i as u32));
            push_vertex_line(&mut out, v);
            proof {
                let ls = seq![header_line()] + verts.subrange(0, i as int).map_values(|v: Vertex| vertex_line(v));
                lemma_join_push(ls, vertex_line(v));
                assert(verts.subrange(0, i + 1) =~= verts.subrange(0, i as int).push(v));
                assert(seq![header_line()] + verts.subrange(0, i + 1).map_values(|v: Vertex| vertex_line(v))
                    =~= ls.push(vertex_line(v)));
            }
            i = i + 1;
        }
        let ghost head = seq![header_line()] + verts.map_values(|v: Vertex| vertex_line(v));
        assert(verts.subrange(0, nv as int) =~= verts);
        let nf = self.num_faces();
        let mut k: usize = 0;
        while k < nf
            invariant
                nf == faces.len(),
                k <= nf,
                self.wf(),
                faces == self.faces(),
                out@ == join_lines(head + faces.subrange(0, k as int).map_values(|f: Face| face_line(f))),
            decreases nf - k,
        {
            let f = self.get_face(k);
            push_face_line(&mut out, f);
            proof {
                let ls = head + faces.subrange(0, k as int).map_values(|f: Face| face_line(f));
                lemma_join_push(ls, face_line(f));
                assert(faces.subrange(0, k + 1) =~= faces.subrange(0, k as int).push(f));
                assert(head + faces.subrange(0, k + 1).map_values(|f: Face| face_line(f)) =~= ls.push(
                    face_line(f),
                ));
            }
            k = k + 1;
        }
        assert(faces.subrange(0, nf as int) =~= faces);
        assert(head + faces.map_values(|f: Face| face_line(f)) =~= obj_lines(verts, faces));
        out
    }
}

} // verus!

use stamp_maker::decode::{PixelLayout, flatten_alpha};
use stamp_maker::grid::{pix_to_z, triangulate};
use stamp_maker::mesh::{Face, Mesh, VertIdx, Vertex};
use stamp_maker::raster::{binarize, invert, pad_border};
use stamp_maker::smooth::{falloff, nearest_on_sq, smooth};
use stamp_maker::{GrayBuffer, Options, StampError, generate_from_bytes, generate_raw};

fn gray(width: u32, height: u32, data: Vec<u8>) -> GrayBuffer {
    assert_eq!(data.len(), (width * height) as usize);
    GrayBuffer { width, height, data }
}

fn plain_options() -> Options {
    Options { invert: false, smooth_radius_um: 500, max_edge_um: 40000, height_um: 3000 }
}

fn vertex_lines(text: &str) -> Vec<&str> {
    text.lines().filter(|l| l.starts_with("v ")).collect()
}

fn face_lines(text: &str) -> Vec<&str> {
    text.lines().filter(|l| l.starts_with("f ")).collect()
}

fn faces(m: &Mesh) -> Vec<Face> {
    (0..m.num_faces()).map(|i| m.get_face(i)).collect()
}

fn tri(a: u32, b: u32, c: u32) -> Face {
    Face::tri(VertIdx::new(a), VertIdx::new(b), VertIdx::new(c))
}

fn png_bytes(img: image::DynamicImage) -> Vec<u8> {
    let mut buf = std::io::Cursor::new(Vec::new());
    img.write_to(&mut buf, image::ImageOutputFormat::Png).unwrap();
    buf.into_inner()
}

#[test]
fn default_options() {
    let o = Options::new();
    assert!(o.invert);
    assert_eq!(o.smooth_radius_um, 500);
    assert_eq!(o.max_edge_um, 40000);
    assert_eq!(o.height_um, 3000);
    assert_eq!(Options::default(), o);
}

#[test]
fn mesh_counts_for_grid() {
    let g = gray(3, 2, vec![0, 255, 0, 255, 0, 255]);
    let m = triangulate(&g, 3000, 1000);
    assert_eq!(m.num_verts(), 3 * 2 + 4);
    assert_eq!(m.num_faces(), 2 * 2 * 1 + 8);
}

#[test]
fn face_handles_in_range_and_adjacency_inverse() {
    let g = gray(4, 3, vec![0, 255, 0, 255, 255, 0, 0, 0, 255, 255, 255, 0]);
    let m = triangulate(&g, 4000, 2000);
    let n = m.num_verts() as u32;
    let fs = faces(&m);
    for f in &fs {
        assert!(f.a.idx < n && f.b.idx < n && f.c.idx < n);
    }
    for v in 0..n {
        let listed = m.faces_of_vert(VertIdx::new(v));
        for (i, f) in fs.iter().enumerate() {
            let uses = f.a.idx == v || f.b.idx == v || f.c.idx == v;
            assert_eq!(listed.contains(&(i as u32)), uses);
        }
    }
}

#[test]
fn adjacency_lists_faces_in_order() {
    let mut m = Mesh::new();
    let a = m.add_vert(0, 0, 0);
    let b = m.add_vert(1000, 0, 0);
    let c = m.add_vert(0, 1000, 0);
    assert_eq!((a.idx, b.idx, c.idx), (0, 1, 2));
    assert_eq!(m.add_face(Face::tri(a, b, c)), 0);
    assert_eq!(m.add_face(Face::tri(a, c, b)), 1);
    assert_eq!(m.faces_of_vert(a), &vec![0, 1]);
    assert_eq!(m.faces_of_vert(b), &vec![0, 1]);
    assert_eq!(m.get_vert(b), Vertex { x: 1000, y: 0, z: 0 });
}

#[test]
fn smooth_radius_zero_is_identity() {
    let g = gray(3, 2, vec![255, 0, 255, 0, 0, 255]);
    let s = smooth(&g, 0);
    assert_eq!(s.width, 3);
    assert_eq!(s.height, 2);
    assert_eq!(s.data, g.data);
}

#[test]
fn smooth_falls_off_with_distance() {
    let g = gray(5, 1, vec![255, 0, 0, 50, 50]);
    let s = smooth(&g, 2);
    assert_eq!(s.data, vec![255, 127, 0, 50, 50]);
}

#[test]
fn smooth_values_by_radius() {
    let g = gray(3, 3, vec![0, 0, 0, 0, 255, 0, 0, 0, 0]);
    assert_eq!(smooth(&g, 1).data, vec![0, 0, 0, 0, 255, 0, 0, 0, 0]);
    assert_eq!(smooth(&g, 2).data, vec![74, 127, 74, 127, 255, 127, 74, 127, 74]);
    assert_eq!(smooth(&g, 3).data, vec![134, 170, 134, 170, 255, 170, 134, 170, 134]);
}

#[test]
fn nearest_on_distance() {
    let g = gray(3, 3, vec![0, 0, 0, 0, 0, 0, 0, 0, 255]);
    assert_eq!(nearest_on_sq(&g, 0, 0, 3), Some(8));
    assert_eq!(nearest_on_sq(&g, 0, 0, 2), None);
    assert_eq!(nearest_on_sq(&g, 2, 1, 1), Some(1));
}

#[test]
fn falloff_values() {
    assert_eq!(falloff(0, 5), 255);
    assert_eq!(falloff(1, 2), 127);
    assert_eq!(falloff(2, 2), 74);
    assert_eq!(falloff(4, 2), 0);
}

#[test]
fn height_mapping() {
    assert_eq!(pix_to_z(0, 3000), 4000);
    assert_eq!(pix_to_z(255, 3000), 7000);
    assert_eq!(pix_to_z(128, 3000), 5505);
}

#[test]
fn height_is_monotone() {
    for h in [0u32, 1, 255, 3000, 123457] {
        let mut last = 0u64;
        for v in 0..=255u8 {
            let z = pix_to_z(v, h);
            assert!(z >= last);
            last = z;
        }
    }
}

#[test]
fn invert_and_threshold() {
    let mut g = gray(4, 1, vec![0, 127, 128, 255]);
    invert(&mut g);
    assert_eq!(g.data, vec![255, 128, 127, 0]);
    let mut h = gray(4, 1, vec![0, 127, 128, 255]);
    binarize(&mut h);
    assert_eq!(h.data, vec![0, 0, 255, 255]);
}

#[test]
fn border_padding() {
    let g = gray(2, 1, vec![7, 9]);
    let p = pad_border(&g, 1);
    assert_eq!((p.width, p.height), (4, 3));
    assert_eq!(p.data, vec![0, 0, 0, 0, 0, 7, 9, 0, 0, 0, 0, 0]);
}

#[test]
fn serializes_text() {
    let mut m = Mesh::new();
    let a = m.add_vert(1500, 0, 4000);
    let b = m.add_vert(1234, 10, 100);
    m.add_face(Face::tri(a, b, b));
    assert_eq!(m.generate_obj(), "g stamp\nv 1.5 0 4\nv 1.234 0.01 0.1\nf 1 2 2\n");
}

#[test]
fn text_line_counts() {
    let g = gray(3, 3, vec![0, 255, 0, 255, 0, 255, 0, 255, 0]);
    let m = triangulate(&g, 3000, 3000);
    let text = m.generate_obj();
    let lines: Vec<&str> = text.lines().collect();
    assert_eq!(lines.len(), 1 + m.num_verts() + m.num_faces());
    assert!(text.ends_with('\n'));
    assert_eq!(lines[0], "g stamp");
    for (i, l) in lines.iter().enumerate() {
        assert!(!l.is_empty());
        if i >= 1 && i <= m.num_verts() {
            assert!(l.starts_with("v "));
        } else if i > m.num_verts() {
            assert!(l.starts_with("f "));
            assert!(!l.split(' ').any(|t| t == "0"));
        }
    }
}

#[test]
fn two_by_two_all_on() {
    let g = gray(2, 2, vec![255, 255, 255, 255]);
    let m = triangulate(&g, 2000, 2000);
    assert_eq!(m.num_verts(), 8);
    assert_eq!(m.num_faces(), 10);
    for i in 0..4 {
        assert_eq!(m.get_vert(VertIdx::new(i)).z, 6000);
    }
    for i in 4..8 {
        assert_eq!(m.get_vert(VertIdx::new(i)).z, 0);
    }
    assert_eq!(m.get_vert(VertIdx::new(3)), Vertex { x: 1000, y: 1000, z: 6000 });
    assert_eq!(m.get_vert(VertIdx::new(7)), Vertex { x: 2000, y: 2000, z: 0 });
    let fs = faces(&m);
    assert_eq!(fs[0], tri(0, 1, 3));
    assert_eq!(fs[1], tri(0, 3, 2));
    assert_eq!(fs[2], tri(2, 6, 4));
    assert_eq!(fs[3], tri(0, 2, 4));
}

#[test]
fn shorter_diagonal_is_chosen() {
    let g = gray(2, 2, vec![255, 0, 0, 0]);
    let m = triangulate(&g, 2000, 2000);
    let fs = faces(&m);
    assert_eq!(fs[0], tri(1, 3, 2));
    assert_eq!(fs[1], tri(0, 1, 2));
}

#[test]
fn all_off_is_flat() {
    let g = gray(3, 3, vec![0; 9]);
    let text = generate_raw(g, &plain_options()).unwrap();
    let vs = vertex_lines(&text);
    assert_eq!(vs.len(), 15 * 15 + 4);
    for l in &vs[..225] {
        assert_eq!(l.rsplit(' ').next(), Some("4"));
    }
    for l in &vs[225..] {
        assert_eq!(l.rsplit(' ').next(), Some("0"));
    }
    assert_eq!(face_lines(&text).len(), 2 * 14 * 14 + 8);
}

#[test]
fn checkerboard_is_deterministic() {
    let mut data = Vec::new();
    for y in 0..4u32 {
        for x in 0..4u32 {
            data.push(if (x + y) % 2 == 0 { 255 } else { 0 });
        }
    }
    let g = gray(4, 4, data);
    let first = triangulate(&g, 4000, 3000);
    let second = triangulate(&g, 4000, 3000);
    assert_eq!(faces(&first), faces(&second));
    let fs = faces(&first);
    for q in 0..9 {
        let f = fs[2 * q];
        assert_eq!(f.b.idx, f.a.idx + 1);
        assert_eq!(f.c.idx, f.a.idx + 5);
    }
    let a = generate_raw(g.clone(), &plain_options()).unwrap();
    let b = generate_raw(g, &plain_options()).unwrap();
    assert_eq!(a, b);
}

#[test]
fn degenerate_inputs() {
    let thin = gray(1, 5, vec![0; 5]);
    assert!(matches!(generate_raw(thin, &plain_options()), Err(StampError::DegenerateInput)));
    let flat = gray(3000, 2, vec![0; 6000]);
    assert!(matches!(generate_raw(flat, &plain_options()), Err(StampError::DegenerateInput)));
}

#[test]
fn radius_without_edge_is_too_large() {
    let g = gray(2, 2, vec![0; 4]);
    let opt = Options { invert: false, smooth_radius_um: 100, max_edge_um: 0, height_um: 3000 };
    assert!(matches!(generate_raw(g, &opt), Err(StampError::TooLarge)));
    let huge = Options { invert: false, smooth_radius_um: 4_000_000_000, max_edge_um: 1, height_um: 3000 };
    assert!(matches!(generate_raw(gray(2, 2, vec![0; 4]), &huge), Err(StampError::TooLarge)));
}

#[test]
fn large_rasters_are_scaled_down() {
    let g = gray(600, 2, vec![0; 1200]);
    let text = generate_raw(g, &plain_options()).unwrap();
    let vs = vertex_lines(&text);
    assert_eq!(vs.len(), 536 * 26 + 4);
    for l in &vs[..536 * 26] {
        assert_eq!(l.rsplit(' ').next(), Some("4"));
    }
}

#[test]
fn inverted_by_default() {
    let text = generate_raw(gray(2, 2, vec![0; 4]), &Options::new()).unwrap();
    let vs = vertex_lines(&text);
    assert!(vs[..vs.len() - 4].iter().any(|l| l.ends_with(" 7")));
}

#[test]
fn alpha_is_the_gray_channel() {
    let s = vec![1, 2, 3, 4];
    let g = flatten_alpha(&s, PixelLayout::LumaAlpha, 2, 1).unwrap();
    assert_eq!(g.data, vec![2, 4]);
    let rgba = vec![9, 9, 9, 200, 9, 9, 9, 100];
    assert_eq!(flatten_alpha(&rgba, PixelLayout::Rgba, 1, 2).unwrap().data, vec![200, 100]);
    assert_eq!(flatten_alpha(&s, PixelLayout::Luma, 2, 2).unwrap().data, s);
    assert!(matches!(flatten_alpha(&s, PixelLayout::Other, 2, 2), Err(StampError::UnsupportedPixelFormat)));
    assert!(matches!(flatten_alpha(&s, PixelLayout::Rgba, 2, 1), Err(StampError::UnsupportedPixelFormat)));
}

#[test]
fn decodes_png_bytes() {
    let img = image::GrayImage::from_raw(3, 3, vec![0, 255, 0, 255, 0, 255, 0, 255, 0]).unwrap();
    let bytes = png_bytes(image::DynamicImage::ImageLuma8(img));
    let opt = Options::new();
    let from_bytes = generate_from_bytes(&bytes, &opt).unwrap();
    let direct = generate_raw(gray(3, 3, vec![0, 255, 0, 255, 0, 255, 0, 255, 0]), &opt).unwrap();
    assert_eq!(from_bytes, direct);
}

#[test]
fn decodes_alpha_from_rgba() {
    let img = image::RgbaImage::from_raw(2, 2, vec![0, 0, 0, 255, 0, 0, 0, 0, 0, 0, 0, 0, 0, 0, 0, 255]).unwrap();
    let bytes = png_bytes(image::DynamicImage::ImageRgba8(img));
    let opt = plain_options();
    let from_bytes = generate_from_bytes(&bytes, &opt).unwrap();
    let direct = generate_raw(gray(2, 2, vec![255, 0, 0, 255]), &opt).unwrap();
    assert_eq!(from_bytes, direct);
}

#[test]
fn rejects_other_layouts_and_garbage() {
    let img = image::RgbImage::from_raw(2, 2, vec![0; 12]).unwrap();
    let bytes = png_bytes(image::DynamicImage::ImageRgb8(img));
    assert!(matches!(generate_from_bytes(&bytes, &Options::new()), Err(StampError::UnsupportedPixelFormat)));
    assert!(matches!(generate_from_bytes(b"not an image", &Options::new()), Err(StampError::Decode(_))));
}

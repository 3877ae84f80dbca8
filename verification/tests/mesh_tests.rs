use foxtrot_mesh::mesh::{
    face_triangles, triangle_indices, triangles_from_indices, triangles_from_wide_indices, Mesh,
    Triangle,
};
use foxtrot_mesh::model::Model;

fn tri(x: u32, y: u32, z: u32) -> Triangle {
    Triangle { x, y, z }
}

fn mesh(verts: Vec<u8>, triangles: Vec<Triangle>) -> Mesh<u8> {
    Mesh { verts, triangles }
}

#[test]
fn new_mesh_is_empty() {
    let m: Mesh<u8> = Mesh::new();
    assert!(m.verts.is_empty());
    assert!(m.triangles.is_empty());
}

#[test]
fn combine_renumbers_second_mesh() {
    let a = mesh(vec![1, 2, 3], vec![tri(0, 1, 2)]);
    let b = mesh(vec![4, 5, 6, 7], vec![tri(0, 1, 2), tri(1, 2, 3)]);
    let m = Mesh::combine(a, b);
    assert_eq!(m.verts, vec![1, 2, 3, 4, 5, 6, 7]);
    assert_eq!(m.triangles, vec![tri(0, 1, 2), tri(3, 4, 5), tri(4, 5, 6)]);
}

#[test]
fn combine_with_empty_is_identity() {
    let a = mesh(vec![1, 2, 3], vec![tri(0, 2, 1)]);
    let left = Mesh::combine(Mesh::new(), mesh(vec![1, 2, 3], vec![tri(0, 2, 1)]));
    let right = Mesh::combine(a, Mesh::new());
    assert_eq!(left.verts, vec![1, 2, 3]);
    assert_eq!(left.triangles, vec![tri(0, 2, 1)]);
    assert_eq!(right.verts, vec![1, 2, 3]);
    assert_eq!(right.triangles, vec![tri(0, 2, 1)]);
}

#[test]
fn combine_is_associative() {
    let make = || {
        (
            mesh(vec![1, 2, 3], vec![tri(0, 1, 2)]),
            mesh(vec![4, 5], vec![tri(0, 1, 1)]),
            mesh(vec![6, 7, 8], vec![tri(2, 1, 0)]),
        )
    };
    let (a, b, c) = make();
    let left = Mesh::combine(Mesh::combine(a, b), c);
    let (a, b, c) = make();
    let right = Mesh::combine(a, Mesh::combine(b, c));
    assert_eq!(left.verts, right.verts);
    assert_eq!(left.triangles, right.triangles);
    assert_eq!(left.triangles, vec![tri(0, 1, 2), tri(3, 4, 4), tri(7, 6, 5)]);
}

#[test]
fn instance_repeats_triangles_per_copy() {
    let template = mesh(vec![0, 0, 0], vec![tri(0, 1, 2), tri(2, 1, 0)]);
    let m = Mesh::instance(&template, vec![vec![1, 2, 3], vec![4, 5, 6], vec![7, 8, 9]]);
    assert_eq!(m.verts, vec![1, 2, 3, 4, 5, 6, 7, 8, 9]);
    assert_eq!(
        m.triangles,
        vec![tri(0, 1, 2), tri(2, 1, 0), tri(3, 4, 5), tri(5, 4, 3), tri(6, 7, 8), tri(8, 7, 6)]
    );
}

#[test]
fn instance_with_no_copies_is_empty() {
    let template = mesh(vec![0, 0, 0], vec![tri(0, 1, 2)]);
    let m = Mesh::instance(&template, vec![]);
    assert!(m.verts.is_empty());
    assert!(m.triangles.is_empty());
}

#[test]
fn flip_triangles_twice_restores() {
    let mut m = mesh(vec![1, 2, 3, 4], vec![tri(0, 1, 2), tri(1, 3, 2)]);
    m.flip_triangles();
    assert_eq!(m.triangles, vec![tri(0, 2, 1), tri(1, 2, 3)]);
    m.flip_triangles();
    assert_eq!(m.triangles, vec![tri(0, 1, 2), tri(1, 3, 2)]);
    assert_eq!(m.verts, vec![1, 2, 3, 4]);
}

#[test]
fn face_triangles_offsets_and_winding() {
    let tris = vec![(0usize, 1usize, 2usize), (2, 3, 0)];
    assert_eq!(face_triangles(&tris, 10, true), vec![tri(10, 11, 12), tri(12, 13, 10)]);
    assert_eq!(face_triangles(&tris, 10, false), vec![tri(10, 12, 11), tri(12, 10, 13)]);
}

#[test]
fn face_triangles_keeps_low_bits() {
    let tris = vec![(0usize, 1usize, 2usize)];
    let offset = (u32::MAX as usize) + 1;
    assert_eq!(face_triangles(&tris, offset, true), vec![tri(0, 1, 2)]);
}

#[test]
fn indices_roundtrip() {
    let ts = vec![tri(0, 1, 2), tri(5, 4, 3)];
    let idx = triangle_indices(&ts);
    assert_eq!(idx, vec![0, 1, 2, 5, 4, 3]);
    assert_eq!(triangles_from_indices(&idx), ts);
}

#[test]
fn grouping_drops_partial_triangle() {
    let idx = vec![0u32, 1, 2, 3, 4];
    assert_eq!(triangles_from_indices(&idx), vec![tri(0, 1, 2)]);
    let whole = vec![7u32, 8, 9];
    assert_eq!(triangle_indices(&triangles_from_indices(&whole)), whole);
}

#[test]
fn model_holds_its_mesh() {
    let m = Model::new(mesh(vec![1, 2, 3], vec![tri(0, 1, 2)]));
    assert_eq!(m.mesh.verts, vec![1, 2, 3]);
    assert_eq!(m.mesh.triangles, vec![tri(0, 1, 2)]);
}

#[test]
fn wide_indices_keep_low_bits() {
    let big = (u32::MAX as usize) + 6;
    let idx = vec![0usize, 1, 2, big, 3, 4, 9];
    assert_eq!(triangles_from_wide_indices(&idx), vec![tri(0, 1, 2), tri(5, 3, 4)]);
}

#[test]
fn instance_layout_is_copy_major() {
    let template = mesh(vec![0, 0], vec![tri(0, 1, 1)]);
    let copies = vec![vec![10, 11], vec![20, 21], vec![30, 31]];
    let m = Mesh::instance(&template, copies.clone());
    for p in 0..m.verts.len() {
        assert_eq!(m.verts[p], copies[p / 2][p % 2]);
    }
}

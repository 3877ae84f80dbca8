use foxtrot_mesh::contour::{
    contour_edges, drop_steiner_point, face_bound_points, join_edge_segments, orient_bound,
    reversed, BoundLoop,
};
use foxtrot_mesh::error::Error;
use foxtrot_mesh::faces::{collect_faces_from_brep, face_tasks, BrepShape, ShellFaces, VoidShell};
use foxtrot_mesh::stats::Stats;

#[test]
fn contour_edges_close_each_loop() {
    // A square (closed by repeating its first point) and a triangle.
    let bounds = vec![vec![10, 11, 12, 13, 10], vec![20, 21, 22, 20]];
    let (pts, edges) = contour_edges(&bounds).unwrap();
    assert_eq!(pts, vec![10, 11, 12, 13, 20, 21, 22]);
    assert_eq!(edges, vec![(0, 1), (1, 2), (2, 3), (3, 0), (4, 5), (5, 6), (6, 4)]);
}

#[test]
fn contour_single_point_is_steiner_point() {
    let bounds = vec![vec![7], vec![1, 2, 3, 1]];
    let (pts, edges) = contour_edges(&bounds).unwrap();
    assert_eq!(pts, vec![7, 1, 2, 3]);
    assert_eq!(edges, vec![(1, 2), (2, 3), (3, 1)]);
}

#[test]
fn contour_empty_bound_fails() {
    let bounds: Vec<Vec<u8>> = vec![vec![1, 2, 1], vec![]];
    assert_eq!(contour_edges(&bounds).err(), Some(Error::CouldNotLower));
}

#[test]
fn contour_no_bounds() {
    let bounds: Vec<Vec<u8>> = vec![];
    let (pts, edges) = contour_edges(&bounds).unwrap();
    assert!(pts.is_empty());
    assert!(edges.is_empty());
}

#[test]
fn bounds_follow_orientation() {
    assert_eq!(orient_bound(vec![1, 2, 3], true), vec![1, 2, 3]);
    assert_eq!(orient_bound(vec![1, 2, 3], false), vec![3, 2, 1]);
    assert_eq!(reversed(reversed(vec![4, 5, 6])), vec![4, 5, 6]);
}

#[test]
fn edge_segments_share_endpoints() {
    let segs = vec![vec![1, 2, 3], vec![3, 4], vec![4, 5, 1]];
    assert_eq!(join_edge_segments(segs), vec![1, 2, 3, 4, 5, 1]);
    let none: Vec<Vec<u8>> = vec![];
    assert!(join_edge_segments(none).is_empty());
}

#[test]
fn steiner_point_on_edge_is_dropped() {
    let mut pts = vec![1, 2, 3, 4];
    assert!(drop_steiner_point(&mut pts, 3, 2));
    assert_eq!(pts, vec![1, 2, 3, 1]);
}

#[test]
fn boundary_point_on_edge_gives_up() {
    let mut pts = vec![1, 2, 3, 4];
    assert!(!drop_steiner_point(&mut pts, 1, 2));
    assert_eq!(pts, vec![1, 2, 3, 4]);
}

#[test]
fn faces_of_solid_with_voids() {
    let b = BrepShape::WithVoids {
        outer: Some(vec![1, 2]),
        voids: vec![
            Some(VoidShell { orientation: true, faces: Some(vec![3]) }),
            None,
            Some(VoidShell { orientation: false, faces: Some(vec![4, 5]) }),
        ],
    };
    assert_eq!(
        collect_faces_from_brep(&b),
        vec![(1, false), (2, false), (3, false), (4, true), (5, true)]
    );
}

#[test]
fn faces_of_shell_based_model() {
    let b = BrepShape::ShellBased {
        shells: vec![ShellFaces::Open(vec![1]), ShellFaces::Other, ShellFaces::Closed(vec![2, 3])],
    };
    assert_eq!(collect_faces_from_brep(&b), vec![(1, false), (2, false), (3, false)]);
    assert!(collect_faces_from_brep(&BrepShape::Other).is_empty());
    assert!(collect_faces_from_brep(&BrepShape::ManifoldSolid { outer: None }).is_empty());
}

#[test]
fn stats_combine_laws() {
    let a = Stats { num_shells: 1, num_faces: 2, num_errors: 3, num_panics: 4 };
    let b = Stats { num_shells: 10, num_faces: 20, num_errors: 30, num_panics: 40 };
    let c = Stats { num_shells: 5, num_faces: 6, num_errors: 7, num_panics: 8 };
    assert_eq!(Stats::combine(a, b), Stats::combine(b, a));
    assert_eq!(Stats::combine(Stats::new(), a), a);
    assert_eq!(Stats::combine(Stats::combine(a, b), c), Stats::combine(a, Stats::combine(b, c)));
    assert_eq!(
        Stats::combine(a, b),
        Stats { num_shells: 11, num_faces: 22, num_errors: 33, num_panics: 44 }
    );
}

#[test]
fn count_face_sorts_failures() {
    let mut s = Stats::new();
    s.count_face(None);
    s.count_face(Some(Error::CouldNotLower));
    s.count_face(Some(Error::UnknownSurfaceType));
    s.count_face(Some(Error::CrossingFixedEdge));
    assert_eq!(s, Stats { num_shells: 0, num_faces: 4, num_errors: 2, num_panics: 1 });
}

#[test]
fn error_messages() {
    let cases = [
        (Error::CouldNotLower, "Could not lower point to 2D for triangulation"),
        (Error::PointOnFixedEdge, "Point is located on a fixed edge but is not its endpoint"),
        (Error::NoMorePoints, "There are no more points left to triangulate"),
        (Error::CrossingFixedEdge, "Fixed edges cross each other"),
        (Error::EmptyInput, "Input cannot be empty"),
        (Error::InvalidInput, "Input cannot contain NaN or infinity"),
        (Error::InvalidEdge, "Edge must index into point array and have different src and dst"),
        (Error::OpenContour, "Contours must be closed"),
        (Error::TooFewPoints, "Too few points"),
        (Error::CannotInitialize, "Could not find initial seed"),
        (Error::WedgeEscape, "Escaped wedge when searching fixed edge"),
        (Error::UnknownSurfaceType, "Could not convert into a Surface"),
        (Error::UnknownCurveType, "Could not convert into a Curve"),
        (Error::ClosedSurface, "Closed NURBS and b-spline surfaces are not implemented"),
        (
            Error::SelfIntersectingSurface,
            "Self-intersecting NURBS and b-spline surfaces are not implemented",
        ),
        (Error::ClosedCurve, "Closed NURBS and b-spline curves are not implemented"),
        (Error::HullMismatch, "hull edge destination mismatch"),
        (
            Error::SelfIntersectingCurve,
            "Self-intersecting NURBS and b-spline curves are not implemented",
        ),
    ];
    for (e, text) in cases.iter() {
        assert_eq!(e.message(), *text);
    }
}

#[test]
fn face_tasks_carry_chains_of_their_solid() {
    let solids = vec![(3usize, vec![vec![1usize, 2], vec![]]), (4, vec![vec![7]])];
    let shapes = vec![
        BrepShape::ManifoldSolid { outer: Some(vec![10, 11]) },
        BrepShape::WithVoids {
            outer: Some(vec![20]),
            voids: vec![Some(VoidShell { orientation: false, faces: Some(vec![21]) })],
        },
    ];
    let tasks = face_tasks(&solids, &shapes);
    let seen: Vec<(usize, usize, Vec<Vec<usize>>, bool)> = tasks
        .iter()
        .map(|t| (t.solid, t.face, t.transforms.clone(), t.flip_normal))
        .collect();
    assert_eq!(
        seen,
        vec![
            (3, 10, vec![vec![1, 2], vec![]], false),
            (3, 11, vec![vec![1, 2], vec![]], false),
            (4, 20, vec![vec![7]], false),
            (4, 21, vec![vec![7]], true),
        ]
    );
}

#[test]
fn face_bound_joins_and_orients() {
    let segs = vec![vec![1, 2, 3], vec![3, 4, 1]];
    assert_eq!(face_bound_points(BoundLoop::Edges(segs.clone()), true), vec![1, 2, 3, 4, 1]);
    assert_eq!(face_bound_points(BoundLoop::Edges(segs), false), vec![1, 4, 3, 2, 1]);
    assert_eq!(face_bound_points(BoundLoop::Vertex(9), false), vec![9]);
}

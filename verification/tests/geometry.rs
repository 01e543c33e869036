use polyshell::geometry::{
    chord_length_2, chord_offset, is_offset_within, orient2d, Orientation, Point, COORD_LIMIT,
};
use polyshell::index_set::IndexSet;
use polyshell::mesh::{constraint_edges, HalfEdge, Mesh, MeshError};
use polyshell::visibility::retain_span;

fn edge(from: usize, to: usize, next: usize, prev: usize, rev: usize) -> HalfEdge {
    HalfEdge { from, to, next, prev, rev, apex: None, constraint: true, outer: true }
}

fn triangle_points() -> Vec<Point> {
    vec![Point::new(0, 0), Point::new(0, 4), Point::new(4, 0)]
}

/// The six directed edges of a single triangle: the inner ones first.
fn triangle_edges() -> Vec<HalfEdge> {
    let mut edges = vec![
        edge(0, 1, 2, 4, 1),
        edge(1, 0, 5, 3, 0),
        edge(1, 2, 4, 0, 3),
        edge(2, 1, 1, 5, 2),
        edge(2, 0, 0, 2, 5),
        edge(0, 2, 3, 1, 4),
    ];
    for (i, apex) in [(0usize, 2usize), (2, 0), (4, 1)] {
        edges[i].apex = Some(apex);
        edges[i].outer = false;
    }
    edges
}

#[test]
fn orientation_is_the_sign_of_the_cross_product() {
    let a = Point::new(0, 0);
    let b = Point::new(4, 0);
    assert_eq!(orient2d(a, b, Point::new(2, 3)), Orientation::CounterClockwise);
    assert_eq!(orient2d(a, b, Point::new(2, -3)), Orientation::Clockwise);
    assert_eq!(orient2d(a, b, Point::new(9, 0)), Orientation::Collinear);
    assert_eq!(orient2d(a, a, b), Orientation::Collinear);
}

#[test]
fn orientation_is_exact_at_the_grid_limit() {
    let a = Point::new(-COORD_LIMIT, -COORD_LIMIT);
    let b = Point::new(COORD_LIMIT, COORD_LIMIT);
    assert_eq!(orient2d(a, b, Point::new(0, 0)), Orientation::Collinear);
    assert_eq!(orient2d(a, b, Point::new(0, 1)), Orientation::CounterClockwise);
    assert_eq!(orient2d(a, b, Point::new(1, 0)), Orientation::Clockwise);
    assert_eq!(
        orient2d(a, b, Point::new(-COORD_LIMIT, COORD_LIMIT)),
        Orientation::CounterClockwise
    );
}

#[test]
fn offset_is_twice_the_triangle_area() {
    let a = Point::new(0, 0);
    let b = Point::new(4, 0);
    assert_eq!(chord_offset(a, b, Point::new(1, 3)), 12);
    assert_eq!(chord_offset(a, b, Point::new(1, -3)), 12);
    assert_eq!(chord_offset(a, b, b), 0);
    assert_eq!(chord_offset(a, b, a), 0);
    let far = Point::new(-COORD_LIMIT, COORD_LIMIT);
    let low = Point::new(-COORD_LIMIT, -COORD_LIMIT);
    let high = Point::new(COORD_LIMIT, COORD_LIMIT);
    assert_eq!(chord_offset(low, high, far), 1u128 << 62);
}

#[test]
fn squared_length_of_a_chord() {
    assert_eq!(chord_length_2(Point::new(1, 1), Point::new(4, 5)), 25);
    assert_eq!(chord_length_2(Point::new(2, 2), Point::new(2, 2)), 0);
    let low = Point::new(-COORD_LIMIT, -COORD_LIMIT);
    let high = Point::new(COORD_LIMIT, COORD_LIMIT);
    assert_eq!(chord_length_2(low, high), 1u64 << 63);
}

#[test]
fn distance_test_needs_no_root() {
    // A point at doubled area 12 from a chord of length 4 lies 3 away from it.
    assert!(is_offset_within(12, 16, 3));
    assert!(!is_offset_within(12, 16, 2));
    assert!(is_offset_within(12, 16, 4));
    assert!(is_offset_within(0, 0, 0));
    assert!(!is_offset_within(1, 0, u32::MAX));
    assert!(is_offset_within(1u128 << 63, u64::MAX, u32::MAX));
}

#[test]
fn point_on_and_off_the_grid() {
    assert!(Point::new(COORD_LIMIT, -COORD_LIMIT).is_on_grid());
    assert!(!Point::new(COORD_LIMIT + 1, 0).is_on_grid());
    assert!(!Point::new(0, -COORD_LIMIT - 1).is_on_grid());
}

#[test]
fn index_set_keeps_each_member_once_and_in_order() {
    let mut set = IndexSet::new();
    for v in [5usize, 1, 9, 5, 3, 1] {
        set.insert(v);
    }
    assert_eq!(set.len(), 4);
    assert!(set.contains(9));
    assert!(!set.contains(4));
    assert_eq!(set.pop_max(), Some(9));
    assert_eq!(set.into_sorted_vec(), vec![1, 3, 5]);
    assert_eq!(IndexSet::new().pop_max(), None);
}

#[test]
fn span_filter_handles_both_kinds_of_arc() {
    let all: Vec<usize> = (0..8).collect();
    assert_eq!(retain_span(&all, 2, 5), vec![2, 3, 4, 5]);
    assert_eq!(retain_span(&all, 6, 1), vec![0, 1, 6, 7]);
    assert_eq!(retain_span(&all, 3, 3), vec![3]);
    assert_eq!(retain_span(&vec![0, 4, 7], 5, 0), vec![0, 7]);
}

#[test]
fn ring_constraints_start_with_the_closing_edge() {
    assert_eq!(constraint_edges(4), vec![(3, 0), (0, 1), (1, 2), (2, 3)]);
    assert_eq!(constraint_edges(1), vec![(0, 0)]);
    assert_eq!(constraint_edges(0), vec![]);
}

#[test]
fn mesh_of_a_triangle_is_accepted() {
    let mesh = Mesh::new(triangle_points(), triangle_edges(), vec![1, 5, 3]).unwrap();
    assert_eq!(mesh.num_vertices(), 3);
    assert_eq!(mesh.num_directed_edges(), 6);
    assert_eq!(mesh.ring_out, vec![0, 2, 4]);
    assert_eq!(mesh.ring_back, vec![5, 1, 3]);
    assert!(mesh.exists_constraint(0, 1));
    assert!(mesh.exists_constraint(1, 0));
    assert!(!mesh.exists_constraint(0, 0));
}

#[test]
fn mesh_rejects_a_point_off_the_grid() {
    let mut points = triangle_points();
    points[1] = Point::new(0, COORD_LIMIT + 1);
    points[2] = Point::new(COORD_LIMIT + 1, 0);
    let r = Mesh::new(points, triangle_edges(), vec![1, 5, 3]);
    assert_eq!(r.err(), Some(MeshError::PointOffGrid(1)));
}

#[test]
fn mesh_rejects_a_broken_edge() {
    let mut edges = triangle_edges();
    edges[5].next = 6;
    assert_eq!(
        Mesh::new(triangle_points(), edges, vec![1, 5, 3]).err(),
        Some(MeshError::BrokenEdge(5))
    );
    let mut edges = triangle_edges();
    edges[2].apex = None;
    assert_eq!(
        Mesh::new(triangle_points(), edges, vec![1, 5, 3]).err(),
        Some(MeshError::BrokenEdge(2))
    );
    let mut edges = triangle_edges();
    edges[4].rev = 6;
    assert_eq!(
        Mesh::new(triangle_points(), edges, vec![1, 5, 3]).err(),
        Some(MeshError::BrokenEdge(4))
    );
}

#[test]
fn mesh_rejects_an_edge_that_disagrees_with_its_reverse() {
    let mut edges = triangle_edges();
    edges[1].rev = 2;
    assert_eq!(
        Mesh::new(triangle_points(), edges, vec![1, 5, 3]).err(),
        Some(MeshError::BrokenEdge(1))
    );
    // Edge 3 is the reverse of edge 2, which is looked at first.
    let mut edges = triangle_edges();
    edges[3].to = 3;
    assert_eq!(
        Mesh::new(triangle_points(), edges, vec![1, 5, 3]).err(),
        Some(MeshError::BrokenEdge(2))
    );
}

#[test]
fn mesh_rejects_a_ring_edge_that_is_no_constraint() {
    let mut edges = triangle_edges();
    edges[0].constraint = false;
    assert_eq!(
        Mesh::new(triangle_points(), edges, vec![1, 5, 3]).err(),
        Some(MeshError::BrokenEdge(0))
    );
}

#[test]
fn mesh_rejects_a_constraint_across_the_ring() {
    let points = vec![Point::new(0, 0), Point::new(0, 4), Point::new(4, 4), Point::new(4, 0)];
    let mut diagonal = edge(0, 2, 0, 0, 1);
    diagonal.constraint = true;
    let mut back = edge(2, 0, 1, 1, 0);
    back.constraint = true;
    assert_eq!(
        Mesh::new(points, vec![diagonal, back], vec![]).err(),
        Some(MeshError::BrokenEdge(0))
    );
}

#[test]
fn mesh_rejects_a_broken_hull() {
    let r = Mesh::new(triangle_points(), triangle_edges(), vec![1, 6, 3]);
    assert_eq!(r.err(), Some(MeshError::BrokenHull(1)));
}

#[test]
fn mesh_rejects_a_missing_ring_edge() {
    let mut edges = triangle_edges();
    edges[2].to = 0;
    edges[3].from = 0;
    assert_eq!(
        Mesh::new(triangle_points(), edges, vec![1, 5, 3]).err(),
        Some(MeshError::MissingRingEdge(1))
    );
}

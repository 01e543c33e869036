use polyshell::geometry::Point;
use polyshell::index_set::IndexSet;
use polyshell::mesh::{constraint_edges, HalfEdge, Mesh};
use polyshell::visibility::{binary_heap_intersection, visibility_intersection, visit_edge};
use spade::{ConstrainedDelaunayTriangulation, Point2, Triangulation};

fn triangulate(coords: &[(f64, f64)]) -> Mesh {
    let points: Vec<Point> = coords
        .iter()
        .map(|&(x, y)| Point::new((x * 10.0).round() as i64, (y * 10.0).round() as i64))
        .collect();
    let vertices: Vec<Point2<f64>> =
        points.iter().map(|p| Point2::new(p.x as f64, p.y as f64)).collect();
    let constraints: Vec<[usize; 2]> =
        constraint_edges(points.len()).into_iter().map(|(a, b)| [a, b]).collect();
    let cdt =
        ConstrainedDelaunayTriangulation::<Point2<f64>>::bulk_load_cdt(vertices, constraints)
            .unwrap();
    let edges: Vec<HalfEdge> = cdt
        .directed_edges()
        .map(|e| HalfEdge {
            from: e.from().fix().index(),
            to: e.to().fix().index(),
            next: e.next().fix().index(),
            prev: e.prev().fix().index(),
            rev: e.rev().fix().index(),
            apex: e.opposite_vertex().map(|v| v.fix().index()),
            constraint: e.is_constraint_edge(),
            outer: e.is_outer_edge(),
        })
        .collect();
    let hull: Vec<usize> = cdt.convex_hull().map(|e| e.fix().index()).collect();
    Mesh::new(points, edges, hull).unwrap()
}

fn set_of(items: &[usize]) -> IndexSet {
    let mut set = IndexSet::new();
    for &v in items {
        set.insert(v);
    }
    set
}

#[test]
fn collinear_test() {
    let mesh = triangulate(&[(0.0, 1.0), (1.0, 1.0), (1.0, 0.0), (0.0, 0.0)]);
    let vis = visibility_intersection(0, 1, &mesh).unwrap();
    assert_eq!(vis, vec![0, 1]);
}

#[test]
fn left_constrained_test() {}

#[test]
fn right_constrained_test() {}

#[test]
fn constrained_test() {
    let mesh = triangulate(&[(0.0, 1.0), (0.5, 0.5), (1.0, 1.0), (1.0, 0.0), (0.0, 0.0)]);
    let vis = visibility_intersection(0, 2, &mesh).unwrap();
    assert_eq!(vis, vec![0, 1, 2]);
}

#[test]
fn central_peak_test() {
    let mesh = triangulate(&[
        (0.0, 1.0),
        (0.5, 0.5),
        (1.0, 0.9),
        (1.5, 0.5),
        (2.0, 1.0),
        (2.0, 0.0),
        (0.0, 0.0),
    ]);
    let vis = visibility_intersection(0, 4, &mesh).unwrap();
    assert_eq!(vis, vec![0, 2, 4]);
}

#[test]
fn sawtooth_test() {
    let mesh = triangulate(&[
        (0.0, 0.0),
        (1.0, -1.0),
        (0.0, -2.0),
        (1.0, -3.0),
        (2.0, -3.0),
        (1.0, -2.0),
        (2.0, -1.0),
        (2.0, 0.0),
        (3.0, 0.0),
        (3.0, -4.0),
        (-1.0, -4.0),
        (-1.0, 0.0),
    ]);
    let source = Point::new(10, 10);
    let edge = mesh.edges.iter().position(|e| e.from == 7 && e.to == 0).unwrap();
    let mut vis = IndexSet::new();
    let ended =
        visit_edge(&mesh, source, edge, mesh.edges[edge].from, mesh.edges[edge].to, &mut vis);
    assert!(ended);
    assert_eq!(vis.into_sorted_vec(), vec![1, 3, 5, 6]);
}

#[test]
fn snail_test() {
    let mesh = triangulate(&[
        (0.0, 0.0),
        (0.0, -3.0),
        (-2.0, -3.0),
        (-2.0, -2.0),
        (-1.0, -2.0),
        (-3.0, -1.0),
        (-3.0, -4.0),
        (3.0, -4.0),
        (3.0, 0.0),
        (4.0, 0.0),
        (4.0, -5.0),
        (-4.0, -5.0),
        (-4.0, 0.0),
    ]);
    let vis = visibility_intersection(0, 8, &mesh).unwrap();
    assert_eq!(vis, vec![0, 1, 7, 8]);
}

#[test]
fn pan_handle_test() {
    let mesh = triangulate(&[
        (-1.0, 0.0),
        (0.0, 0.0),
        (0.0, -1.0),
        (1.0, -1.0),
        (1.0, 0.0),
        (2.0, 0.0),
        (3.0, 1.0),
        (3.0, -2.0),
        (-2.0, -2.0),
        (-2.0, 1.0),
    ]);
    let vis = visibility_intersection(0, 5, &mesh).unwrap();
    assert_eq!(vis, vec![0, 1, 4, 5]);
}

#[test]
fn intersection_keeps_shared_members() {
    let both = binary_heap_intersection(set_of(&[1, 3, 5, 7, 9]), set_of(&[0, 3, 4, 7, 8, 9]));
    assert_eq!(both.into_sorted_vec(), vec![3, 7, 9]);
}

#[test]
fn intersection_with_empty_set_is_empty() {
    let none = binary_heap_intersection(set_of(&[1, 2, 3]), IndexSet::new());
    assert_eq!(none.into_sorted_vec(), Vec::<usize>::new());
    let none = binary_heap_intersection(IndexSet::new(), set_of(&[1, 2, 3]));
    assert_eq!(none.into_sorted_vec(), Vec::<usize>::new());
}

#[test]
fn intersection_of_disjoint_sets_is_empty() {
    let none = binary_heap_intersection(set_of(&[10, 20]), set_of(&[1, 15, 30]));
    assert_eq!(none.into_sorted_vec(), Vec::<usize>::new());
}

#[test]
fn visibility_intersection_holds_both_ends() {
    let mesh = triangulate(&[
        (0.0, 1.0),
        (0.5, 0.5),
        (1.0, 0.9),
        (1.5, 0.5),
        (2.0, 1.0),
        (2.0, 0.0),
        (0.0, 0.0),
    ]);
    for &(from, to) in &[(0usize, 4usize), (0, 2), (2, 4), (4, 5), (5, 6), (6, 0)] {
        let vis = visibility_intersection(from, to, &mesh).unwrap();
        assert!(vis.contains(&from));
        assert!(vis.contains(&to));
    }
}

#[test]
fn visibility_intersection_wraps_around_the_ring() {
    let mesh = triangulate(&[(0.0, 1.0), (1.0, 1.0), (1.0, 0.0), (0.0, 0.0)]);
    let vis = visibility_intersection(3, 0, &mesh).unwrap();
    assert_eq!(vis, vec![0, 3]);
}

use polyshell::geometry::Point;
use polyshell::melkman::{melkman_indices, HullSegments, Melkman};
use polyshell::segments::{cut_at, join_segments, LineString};

fn ring(coords: &[(f64, f64)]) -> Vec<Point> {
    coords
        .iter()
        .map(|&(x, y)| Point::new((x * 10.0).round() as i64, (y * 10.0).round() as i64))
        .collect()
}

#[test]
fn simple_test() {
    let poly = LineString {
        items: ring(&[(0.0, 0.0), (0.0, 1.0), (0.5, 0.5), (1.0, 1.0), (1.0, 0.0), (0.0, 0.0)]),
    };
    let hull = poly.hull_indices();
    let correct = vec![4, 0, 1, 3, 4];
    assert_eq!(hull, correct);
}

#[test]
fn hull_of_two_vertices() {
    assert_eq!(melkman_indices(&ring(&[(0.0, 0.0), (1.0, 0.0)])), vec![1, 0, 1]);
}

#[test]
fn hull_of_a_convex_ring_holds_every_corner() {
    let square = ring(&[(0.0, 1.0), (1.0, 1.0), (1.0, 0.0), (0.0, 0.0)]);
    assert_eq!(melkman_indices(&square), vec![3, 0, 1, 2, 3]);
}

#[test]
fn hull_leaves_out_the_teeth_of_a_saw() {
    let saw = ring(&[
        (0.0, 0.0),
        (1.0, -1.0),
        (0.0, -2.0),
        (1.0, -3.0),
        (2.0, -3.0),
        (1.0, -2.0),
        (2.0, -1.0),
        (2.0, 0.0),
        (3.0, 0.0),
        (3.0, -4.0),
        (-1.0, -4.0),
        (-1.0, 0.0),
    ]);
    let hull = melkman_indices(&saw);
    assert_eq!(hull.first(), hull.last());
    let mut corners = hull[1..].to_vec();
    corners.sort();
    // Vertices 0 and 7 lie on the hull edge from 11 to 8 and stay.
    assert_eq!(corners, vec![0, 7, 8, 9, 10, 11]);
}

#[test]
fn ring_is_cut_between_marks() {
    let ring: Vec<usize> = vec![10, 11, 12, 13, 14, 10];
    assert_eq!(cut_at(&ring, &vec![1, 3, 4]), vec![vec![11, 12, 13], vec![13, 14]]);
    assert_eq!(cut_at(&ring, &vec![4, 0, 1]), vec![vec![14, 10], vec![10, 11]]);
    assert_eq!(cut_at(&ring, &vec![3, 1]), vec![vec![13, 14, 10, 11]]);
    assert_eq!(cut_at(&ring, &vec![2, 2]), vec![vec![12]]);
    assert_eq!(cut_at(&ring, &vec![2]), Vec::<Vec<usize>>::new());
    assert_eq!(cut_at(&ring, &vec![]), Vec::<Vec<usize>>::new());
}

#[test]
fn cutting_and_joining_gives_the_ring_back() {
    let ring: Vec<usize> = (100..120).collect();
    let pieces = cut_at(&ring, &vec![2, 5, 5, 9, 17]);
    assert_eq!(join_segments(&pieces), (102..118).collect::<Vec<usize>>());
}

#[test]
fn ring_is_cut_at_its_hull() {
    let poly = LineString {
        items: ring(&[(0.0, 0.0), (0.0, 1.0), (0.5, 0.5), (1.0, 1.0), (1.0, 0.0), (0.0, 0.0)]),
    };
    let pieces = poly.hull_segments();
    let p = &poly.items;
    assert_eq!(
        pieces,
        vec![vec![p[4], p[5]], vec![p[0], p[1]], vec![p[1], p[2], p[3]], vec![p[3], p[4]]]
    );
}

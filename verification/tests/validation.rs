use polyshell::geometry::{Point, COORD_LIMIT};
use polyshell::segments::LineString;
use polyshell::validation::{
    check_ring, do_segments_meet, has_self_intersection, InvalidPolygon, Validate,
};

fn ring(coords: &[(i64, i64)]) -> Vec<Point> {
    coords.iter().map(|&(x, y)| Point::new(x, y)).collect()
}

#[test]
fn a_square_is_a_valid_ring() {
    let square = ring(&[(0, 10), (10, 10), (10, 0), (0, 0), (0, 10)]);
    assert_eq!(check_ring(&square), Ok(()));
    assert!(LineString { items: square.clone() }.is_valid());
    assert_eq!(LineString { items: square.clone() }.check_validate(), Ok(()));
    assert_eq!(LineString { items: square.clone() }.validate().map(|l| l.items), Ok(square));
}

#[test]
fn an_empty_ring_is_in_order() {
    assert_eq!(check_ring(&vec![]), Ok(()));
}

#[test]
fn a_ring_needs_three_vertices_and_the_closing_one() {
    assert_eq!(check_ring(&ring(&[(0, 0)])), Err(InvalidPolygon::TooFewPoints));
    assert_eq!(
        check_ring(&ring(&[(0, 0), (4, 0), (0, 0)])),
        Err(InvalidPolygon::TooFewPoints)
    );
}

#[test]
fn a_ring_has_to_close() {
    let open = ring(&[(0, 10), (10, 10), (10, 0), (0, 0)]);
    assert_eq!(check_ring(&open), Err(InvalidPolygon::OpenChain));
    assert!(!LineString { items: open.clone() }.is_valid());
    assert_eq!(
        LineString { items: open }.validate().map(|l| l.items),
        Err(InvalidPolygon::OpenChain)
    );
}

#[test]
fn the_first_vertex_off_the_grid_is_named() {
    let far = ring(&[(0, 10), (10, COORD_LIMIT + 1), (COORD_LIMIT + 1, 0), (0, 0), (0, 10)]);
    assert_eq!(check_ring(&far), Err(InvalidPolygon::NonFiniteCoord(1)));
}

#[test]
fn a_bow_tie_meets_itself() {
    let bow = ring(&[(0, 0), (10, 10), (10, 0), (0, 10), (0, 0)]);
    assert_eq!(check_ring(&bow), Err(InvalidPolygon::SelfIntersection));
    assert!(has_self_intersection(&bow));
}

#[test]
fn a_crossing_late_in_the_ring_is_found() {
    let late = ring(&[(0, 0), (0, 30), (30, 30), (30, 10), (10, 20), (20, 20), (20, 0), (0, 0)]);
    assert_eq!(check_ring(&late), Err(InvalidPolygon::SelfIntersection));
}

#[test]
fn a_vertex_on_a_far_edge_counts_as_meeting() {
    let touch = ring(&[(0, 0), (0, 10), (10, 10), (5, 0), (10, -10), (0, -10), (0, 0)]);
    assert_eq!(check_ring(&touch), Ok(()));
    let touch = ring(&[(0, 0), (10, 0), (10, 10), (5, 0), (0, 10), (0, 0)]);
    assert_eq!(check_ring(&touch), Err(InvalidPolygon::SelfIntersection));
}

#[test]
fn segments_meet_when_they_share_a_point() {
    let p = |x, y| Point::new(x, y);
    assert!(do_segments_meet(p(0, 0), p(4, 4), p(0, 4), p(4, 0)));
    assert!(!do_segments_meet(p(0, 0), p(4, 4), p(5, 5), p(9, 9)));
    assert!(do_segments_meet(p(0, 0), p(4, 4), p(4, 4), p(9, 0)));
    assert!(do_segments_meet(p(0, 0), p(4, 4), p(2, 2), p(9, 9)));
    assert!(!do_segments_meet(p(0, 0), p(4, 0), p(0, 1), p(4, 1)));
    assert!(!do_segments_meet(p(0, 0), p(4, 0), p(5, -1), p(5, 1)));
    assert!(do_segments_meet(p(0, 0), p(4, 0), p(2, 0), p(2, 5)));
}

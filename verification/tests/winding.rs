use polyshell::geometry::{Point, COORD_LIMIT};
use polyshell::winding::{is_clockwise, WindingError};

fn ring(coords: &[(i64, i64)]) -> Vec<Point> {
    coords.iter().map(|&(x, y)| Point::new(x, y)).collect()
}

#[test]
fn a_ring_that_turns_right_is_clockwise() {
    assert_eq!(is_clockwise(&ring(&[(0, 10), (10, 10), (10, 0), (0, 0)])), Ok(true));
    assert_eq!(is_clockwise(&ring(&[(0, 0), (10, 0), (10, 10), (0, 10)])), Ok(false));
}

#[test]
fn winding_needs_three_vertices() {
    assert_eq!(is_clockwise(&ring(&[])), Err(WindingError::TooFewPoints));
    assert_eq!(is_clockwise(&ring(&[(0, 0), (5, 5)])), Err(WindingError::TooFewPoints));
}

#[test]
fn a_ring_without_area_has_no_winding() {
    assert_eq!(is_clockwise(&ring(&[(0, 0), (5, 5), (9, 9)])), Err(WindingError::Degenerate));
    assert_eq!(
        is_clockwise(&ring(&[(0, 0), (4, 0), (4, 4), (0, 0), (-4, 0), (-4, 4)])),
        Err(WindingError::Degenerate)
    );
}

#[test]
fn winding_is_exact_at_the_grid_limit() {
    let l = COORD_LIMIT;
    assert_eq!(is_clockwise(&ring(&[(-l, -l), (-l, l), (l, l), (l, -l)])), Ok(true));
    assert_eq!(is_clockwise(&ring(&[(-l, -l), (l, l), (l, l - 1)])), Ok(true));
    assert_eq!(is_clockwise(&ring(&[(-l, -l), (l, l), (l - 1, l)])), Ok(false));
}

use polyshell::geometry::Point;
use polyshell::index_set::IndexSet;
use polyshell::validation::has_self_intersection;
use polyshell::visibility::{visibility_intersection, visit_edge};
use polyshell::mesh::{constraint_edges, HalfEdge, Mesh};
use polyshell::segments::{join_segments, FromSegments, LineString};
use polyshell::simplify_charshape::{
    characteristic_shape, characteristic_shape_indices, CharScore, EdgeQueue, SimplifyCharshape,
};
use polyshell::ring_order::follows_ring;
use polyshell::simplify_rdp::{
    rdp_preserve, simplify_rdp_indices, simplify_visibility_rdp, SimplifyError, SimplifyRDP,
};
use spade::{ConstrainedDelaunayTriangulation, Point2, Triangulation};

fn grid(coords: &[(f64, f64)]) -> Vec<Point> {
    coords
        .iter()
        .map(|&(x, y)| Point::new((x * 10.0).round() as i64, (y * 10.0).round() as i64))
        .collect()
}

fn triangulate(coords: &[(f64, f64)]) -> Mesh {
    let points = grid(coords);
    let vertices: Vec<Point2<f64>> =
        points.iter().map(|p| Point2::new(p.x as f64, p.y as f64)).collect();
    let constraints: Vec<[usize; 2]> =
        constraint_edges(points.len()).into_iter().map(|(a, b)| [a, b]).collect();
    let cdt =
        ConstrainedDelaunayTriangulation::<Point2<f64>>::bulk_load_cdt(vertices, constraints)
            .unwrap();
    let edges: Vec<HalfEdge> = cdt
        .directed_edges()
        .map(|e| HalfEdge {
            from: e.from().fix().index(),
            to: e.to().fix().index(),
            next: e.next().fix().index(),
            prev: e.prev().fix().index(),
            rev: e.rev().fix().index(),
            apex: e.opposite_vertex().map(|v| v.fix().index()),
            constraint: e.is_constraint_edge(),
            outer: e.is_outer_edge(),
        })
        .collect();
    let hull: Vec<usize> = cdt.convex_hull().map(|e| e.fix().index()).collect();
    Mesh::new(points, edges, hull).unwrap()
}

/// The closed ring `ring`, opened and turned so that it starts at its smallest index.
fn canonical(ring: &[usize]) -> Vec<usize> {
    assert!(ring.len() >= 2);
    assert_eq!(ring.first(), ring.last());
    let open = &ring[..ring.len() - 1];
    let start = open.iter().enumerate().min_by_key(|&(_, v)| *v).map(|(i, _)| i).unwrap();
    open[start..].iter().chain(open[..start].iter()).copied().collect()
}

/// Whether the ring, once closed, meets itself.
fn self_intersects(ring: &[Point]) -> bool {
    let mut closed = ring.to_vec();
    closed.push(ring[0]);
    has_self_intersection(&closed)
}

const DENT: [(f64, f64); 5] = [(0.0, 1.0), (0.5, 0.5), (1.0, 1.0), (1.0, 0.0), (0.0, 0.0)];

const PEAKS: [(f64, f64); 7] =
    [(0.0, 1.0), (0.5, 0.5), (1.0, 0.9), (1.5, 0.5), (2.0, 1.0), (2.0, 0.0), (0.0, 0.0)];

const SAWTOOTH: [(f64, f64); 12] = [
    (0.0, 0.0),
    (1.0, -1.0),
    (0.0, -2.0),
    (1.0, -3.0),
    (2.0, -3.0),
    (1.0, -2.0),
    (2.0, -1.0),
    (2.0, 0.0),
    (3.0, 0.0),
    (3.0, -4.0),
    (-1.0, -4.0),
    (-1.0, 0.0),
];

const SNAIL: [(f64, f64); 13] = [
    (0.0, 0.0),
    (0.0, -3.0),
    (-2.0, -3.0),
    (-2.0, -2.0),
    (-1.0, -2.0),
    (-3.0, -1.0),
    (-3.0, -4.0),
    (3.0, -4.0),
    (3.0, 0.0),
    (4.0, 0.0),
    (4.0, -5.0),
    (-4.0, -5.0),
    (-4.0, 0.0),
];

#[test]
fn rdp_keeps_all_corners_of_a_square() {
    let mesh = triangulate(&[(0.0, 1.0), (1.0, 1.0), (1.0, 0.0), (0.0, 0.0)]);
    for eps in [0u32, 1, 5, 10, 1000] {
        let kept = simplify_rdp_indices(&mesh, eps).unwrap();
        assert_eq!(canonical(&kept), vec![0, 1, 2, 3]);
    }
}

#[test]
fn rdp_keeps_a_triangle() {
    let mesh = triangulate(&[(0.0, 0.0), (0.0, 1.0), (1.0, 0.0)]);
    for eps in [0u32, 3, 100] {
        let kept = simplify_rdp_indices(&mesh, eps).unwrap();
        assert_eq!(canonical(&kept), vec![0, 1, 2]);
    }
}

#[test]
fn charshape_keeps_a_triangle() {
    let mesh = triangulate(&[(0.0, 0.0), (0.0, 1.0), (1.0, 0.0)]);
    for eps in [0u32, 3, 100] {
        assert_eq!(characteristic_shape_indices(&mesh, eps, 3), vec![0, 1, 2]);
    }
}

#[test]
fn rdp_drops_the_dent_at_its_depth() {
    // The dent lies 5 grid units below the chord that spans it.
    let mesh = triangulate(&DENT);
    let kept = simplify_rdp_indices(&mesh, 5).unwrap();
    assert_eq!(canonical(&kept), vec![0, 2, 3, 4]);
    let kept = simplify_rdp_indices(&mesh, 4).unwrap();
    assert_eq!(canonical(&kept), vec![0, 1, 2, 3, 4]);
}

#[test]
fn rdp_chain_of_one_hull_edge() {
    let mesh = triangulate(&DENT);
    assert_eq!(rdp_preserve(0, 2, &mesh, 5), Ok(vec![0, 2]));
    assert_eq!(rdp_preserve(0, 2, &mesh, 4), Ok(vec![0, 1, 2]));
    assert_eq!(rdp_preserve(2, 3, &mesh, 0), Ok(vec![2, 3]));
}

#[test]
fn rdp_splits_at_the_central_peak() {
    // Vertices 1 and 3 lie 5 units below the chord 0-4, vertex 2 lies 1 unit below.
    let mesh = triangulate(&PEAKS);
    assert_eq!(rdp_preserve(0, 4, &mesh, 5), Ok(vec![0, 4]));
    assert_eq!(rdp_preserve(0, 4, &mesh, 4), Ok(vec![0, 1, 2, 3, 4]));
}

#[test]
fn rdp_fails_where_the_ends_see_nothing_between_them() {
    // The arc from 2 round to 0 bulges away from its chord, and its ends see nothing
    // of it through the triangulation.
    let mesh = triangulate(&DENT);
    assert_eq!(rdp_preserve(2, 0, &mesh, 0), Err(SimplifyError::SplitAtEndpoint));
}

#[test]
fn rdp_returns_positions_of_kept_vertices() {
    let mesh = triangulate(&DENT);
    let kept = simplify_rdp_indices(&mesh, 5).unwrap();
    let ring = simplify_visibility_rdp(&mesh, 5).unwrap();
    let expected: Vec<Point> = kept.iter().map(|&i| mesh.points[i]).collect();
    assert_eq!(ring.items, expected);
    assert_eq!(mesh.simplify_rdp(5).unwrap().items, expected);
}

#[test]
fn rdp_output_is_part_of_the_input_in_ring_order() {
    for coords in [&PEAKS[..], &SAWTOOTH[..], &SNAIL[..], &DENT[..]] {
        let mesh = triangulate(coords);
        for eps in [0u32, 3, 7, 12, 25, 100] {
            let kept = canonical(&simplify_rdp_indices(&mesh, eps).unwrap());
            assert!(kept.windows(2).all(|w| w[0] < w[1]));
            assert!(kept.iter().all(|&i| i < coords.len()));
        }
    }
}

#[test]
fn rdp_output_does_not_cross_itself() {
    for coords in [&PEAKS[..], &SAWTOOTH[..], &SNAIL[..], &DENT[..]] {
        let mesh = triangulate(coords);
        for eps in [0u32, 3, 7, 12, 25, 100] {
            let kept = canonical(&simplify_rdp_indices(&mesh, eps).unwrap());
            let ring: Vec<Point> = kept.iter().map(|&i| mesh.points[i]).collect();
            assert!(!self_intersects(&ring));
        }
    }
}

#[test]
fn charshape_output_does_not_cross_itself() {
    for coords in [&PEAKS[..], &SAWTOOTH[..], &SNAIL[..], &DENT[..]] {
        let mesh = triangulate(coords);
        for eps in [0u32, 7, 12, 25, 100] {
            for max_len in [0usize, 4, 6, 9, 20] {
                let ring = characteristic_shape(&mesh, eps, max_len).items;
                assert!(!self_intersects(&ring));
            }
        }
    }
}

#[test]
fn charshape_without_threshold_gives_the_ring_back() {
    for coords in [&PEAKS[..], &SAWTOOTH[..], &SNAIL[..], &DENT[..]] {
        let mesh = triangulate(coords);
        let all: Vec<usize> = (0..coords.len()).collect();
        assert_eq!(characteristic_shape_indices(&mesh, 0, coords.len()), all);
        assert_eq!(characteristic_shape_indices(&mesh, 0, coords.len() + 5), all);
        assert_eq!(characteristic_shape(&mesh, 0, coords.len()).items, grid(coords));
    }
}

#[test]
fn charshape_stops_at_the_threshold() {
    // The only edge that can be replaced is the hull edge 0-2, of squared length 100.
    let mesh = triangulate(&DENT);
    assert_eq!(characteristic_shape_indices(&mesh, 10, 5), vec![0, 1, 2, 3, 4]);
    assert_eq!(characteristic_shape_indices(&mesh, 11, 5), vec![0, 2, 3, 4]);
}

#[test]
fn charshape_stops_at_the_vertex_limit() {
    let mesh = triangulate(&DENT);
    assert_eq!(characteristic_shape_indices(&mesh, 0, 4), vec![0, 2, 3, 4]);
    assert_eq!(characteristic_shape_indices(&mesh, 0, 5), vec![0, 1, 2, 3, 4]);
    let mesh = triangulate(&SAWTOOTH);
    for max_len in 6..=12usize {
        assert!(characteristic_shape_indices(&mesh, 0, max_len).len() <= max_len);
    }
}

#[test]
fn charshape_never_gives_less_than_the_hull() {
    // Six vertices of the sawtooth lie on its convex hull.
    let mesh = triangulate(&SAWTOOTH);
    assert_eq!(mesh.hull.len(), 6);
    for max_len in 0..=6usize {
        assert_eq!(characteristic_shape_indices(&mesh, 0, max_len), vec![0, 7, 8, 9, 10, 11]);
    }
}

#[test]
fn charshape_trait_counts_the_closing_vertex() {
    let mesh = triangulate(&DENT);
    assert_eq!(mesh.simplify_charshape(0, 5).items, grid(&[DENT[0], DENT[2], DENT[3], DENT[4]]));
    assert_eq!(mesh.simplify_charshape(0, 6).items, grid(&DENT));
}

#[test]
fn degenerate_rings_are_kept() {
    let two = vec![Point::new(0, 0), Point::new(7, 3)];
    let mesh = Mesh::new(two.clone(), vec![], vec![]).unwrap();
    assert_eq!(simplify_rdp_indices(&mesh, 4), Ok(vec![0, 1]));
    assert_eq!(simplify_visibility_rdp(&mesh, 4).unwrap().items, two);
    assert_eq!(characteristic_shape_indices(&mesh, 4, 1), vec![0, 1]);
    let none = Mesh::new(vec![], vec![], vec![]).unwrap();
    assert_eq!(simplify_rdp_indices(&none, 0), Ok(vec![]));
    assert_eq!(characteristic_shape_indices(&none, 0, 0), Vec::<usize>::new());
}

#[test]
fn queue_hands_out_the_longest_edge_first() {
    let mut queue = EdgeQueue::new();
    queue.push(CharScore { score: 4, edge: 0 });
    queue.push(CharScore { score: 9, edge: 1 });
    queue.push(CharScore { score: 1, edge: 2 });
    queue.push(CharScore { score: 9, edge: 0 });
    assert_eq!(queue.pop(), Some(CharScore { score: 9, edge: 1 }));
    assert_eq!(queue.pop(), Some(CharScore { score: 9, edge: 0 }));
    assert_eq!(queue.pop(), Some(CharScore { score: 4, edge: 0 }));
    assert_eq!(queue.pop(), Some(CharScore { score: 1, edge: 2 }));
    assert_eq!(queue.pop(), None);
}

#[test]
fn segments_are_joined_at_their_shared_ends() {
    let joined = join_segments(&vec![vec![1, 2, 3], vec![3, 4], vec![4, 5, 1]]);
    assert_eq!(joined, vec![1, 2, 3, 4, 5, 1]);
    assert_eq!(join_segments(&Vec::<Vec<usize>>::new()), Vec::<usize>::new());
    assert_eq!(join_segments(&vec![vec![7usize, 8]]), vec![7, 8]);
    let line = LineString::from_segments(vec![vec![1, 2], vec![2, 3]]);
    assert_eq!(line.items, vec![1, 2, 3]);
}

#[test]
fn hull_follows_a_clockwise_ring_only() {
    for coords in [&PEAKS[..], &SAWTOOTH[..], &SNAIL[..], &DENT[..]] {
        assert!(follows_ring(&triangulate(coords)));
        let turned: Vec<(f64, f64)> = coords.iter().rev().copied().collect();
        assert!(!follows_ring(&triangulate(&turned)));
    }
    let two = Mesh::new(vec![Point::new(0, 0), Point::new(7, 3)], vec![], vec![]).unwrap();
    assert!(!follows_ring(&two));
}

#[test]
fn rdp_ring_closes_on_its_first_vertex() {
    let mesh = triangulate(&SNAIL);
    for eps in [0u32, 10, 30] {
        let kept = simplify_rdp_indices(&mesh, eps).unwrap();
        assert_eq!(kept.first(), kept.last());
        assert_eq!(kept[0], mesh.edges[mesh.hull[0]].from);
    }
}

#[test]
fn rdp_leaves_out_only_what_lies_within_eps() {
    for coords in [&PEAKS[..], &SAWTOOTH[..], &SNAIL[..], &DENT[..]] {
        let mesh = triangulate(coords);
        let n = coords.len();
        for eps in [0u32, 3, 7, 12, 25, 100] {
            let kept = simplify_rdp_indices(&mesh, eps).unwrap();
            for pair in kept.windows(2) {
                let (a, b) = (mesh.points[pair[0]], mesh.points[pair[1]]);
                let len_2 = polyshell::geometry::chord_length_2(a, b);
                let mut v = (pair[0] + 1) % n;
                while v != pair[1] {
                    let off = polyshell::geometry::chord_offset(a, b, mesh.points[v]);
                    assert!(polyshell::geometry::is_offset_within(off, len_2, eps));
                    v = (v + 1) % n;
                }
            }
        }
    }
}

#[test]
fn hull_of_a_convex_ring_is_the_ring() {
    for coords in [
        &[(0.0, 0.0), (0.0, 1.0), (1.0, 0.0)][..],
        &[(0.0, 1.0), (1.0, 1.0), (1.0, 0.0), (0.0, 0.0)][..],
        &[(0.0, 0.0), (-1.0, 2.0), (1.0, 4.0), (3.0, 3.0), (4.0, 1.0), (2.0, -1.0)][..],
    ] {
        let mesh = triangulate(coords);
        let n = coords.len();
        assert!(follows_ring(&mesh));
        assert_eq!(mesh.hull.len(), n);
        let all: Vec<usize> = (0..n).collect();
        for eps in [0u32, 2, 50, u32::MAX] {
            assert_eq!(canonical(&simplify_rdp_indices(&mesh, eps).unwrap()), all);
            for max_len in [0usize, 3, 100] {
                assert_eq!(characteristic_shape_indices(&mesh, eps, max_len), all);
            }
        }
    }
}

/// A square whose diagonal is wired to itself: behind the diagonal lies the diagonal.
fn knotted_square() -> Mesh {
    let points = vec![Point::new(0, 0), Point::new(0, 10), Point::new(10, 10), Point::new(10, 0)];
    let ends = [(0, 1), (1, 0), (1, 2), (2, 1), (2, 3), (3, 2), (3, 0), (0, 3), (0, 2), (2, 0)];
    let mut edges: Vec<HalfEdge> = ends
        .iter()
        .enumerate()
        .map(|(i, &(from, to))| HalfEdge {
            from,
            to,
            next: i,
            prev: i,
            rev: i ^ 1,
            apex: None,
            constraint: i < 8,
            outer: true,
        })
        .collect();
    for (i, apex, side) in [(0usize, 2usize, 9usize), (8, 1, 9), (9, 3, 8)] {
        edges[i].apex = Some(apex);
        edges[i].outer = false;
        edges[i].next = side;
        edges[i].prev = side;
    }
    Mesh::new(points, edges, vec![]).unwrap()
}

#[test]
fn a_walk_that_does_not_end_is_cut_off() {
    let mesh = knotted_square();
    let mut seen = IndexSet::new();
    assert!(!visit_edge(&mesh, Point::new(5, 0), 8, 0, 2, &mut seen));
    assert_eq!(seen.into_sorted_vec(), vec![1]);
    assert_eq!(visibility_intersection(0, 2, &mesh), None);
    assert_eq!(rdp_preserve(0, 2, &mesh, 0), Err(SimplifyError::WalkCutOff));
    assert_eq!(rdp_preserve(0, 2, &mesh, 8), Ok(vec![0, 2]));
}

#[test]
fn rdp_splits_at_the_first_of_equally_far_vertices() {
    // Vertices 1 and 2 both lie 6 units below the chord 0-3 and both ends see both.
    // After the split at vertex 1, vertex 2 lies 24 / sqrt(85) < 3 from the chord 1-3.
    let mesh = triangulate(&[(0.0, 1.0), (0.3, 0.4), (0.7, 0.4), (1.0, 1.0), (1.0, 0.0), (0.0, 0.0)]);
    assert_eq!(visibility_intersection(0, 3, &mesh), Some(vec![0, 1, 2, 3]));
    assert_eq!(rdp_preserve(0, 3, &mesh, 3), Ok(vec![0, 1, 3]));
    assert_eq!(rdp_preserve(0, 3, &mesh, 2), Ok(vec![0, 1, 2, 3]));
    assert_eq!(rdp_preserve(0, 3, &mesh, 6), Ok(vec![0, 3]));
}

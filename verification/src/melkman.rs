//! The convex hull of a simple chain, found in one pass over its vertices.
use crate::geometry::{orient2d, orientation, Orientation, Point};
use crate::segments::{cut_at, pieces, views, LineString};
use std::collections::VecDeque;
use vstd::prelude::*;

verus! {

/// Seen from vertex `v`, the first two vertices of the hull turn counter-clockwise:
/// the first of them is no corner of the hull once `v` has joined it.
pub open spec fn front_gives_way(ring: Seq<Point>, hull: Seq<usize>, v: int) -> bool {
    hull.len() >= 2 && orientation(ring[v], ring[hull[0] as int], ring[hull[1] as int])
        == Orientation::CounterClockwise
}

/// Seen from vertex `v`, the last two vertices of the hull turn clockwise.
pub open spec fn back_gives_way(ring: Seq<Point>, hull: Seq<usize>, v: int) -> bool {
    hull.len() >= 2 && orientation(
        ring[v],
        ring[hull[hull.len() - 1] as int],
        ring[hull[hull.len() - 2] as int],
    ) == Orientation::Clockwise
}

/// The hull without the vertices at its front that give way to `v`.
pub open spec fn trim_front(ring: Seq<Point>, hull: Seq<usize>, v: int) -> Seq<usize>
    decreases hull.len(),
{
    if front_gives_way(ring, hull, v) {
        trim_front(ring, hull.subrange(1, hull.len() as int), v)
    } else {
        hull
    }
}

/// The hull without the vertices at its back that give way to `v`.
pub open spec fn trim_back(ring: Seq<Point>, hull: Seq<usize>, v: int) -> Seq<usize>
    decreases hull.len(),
{
    if back_gives_way(ring, hull, v) {
        trim_back(ring, hull.drop_last(), v)
    } else {
        hull
    }
}

/// The hull after vertex `v` has been looked at: a vertex that lies outside the hull
/// takes the place of the corners that give way to it, at both ends of the hull.
pub open spec fn with_vertex(ring: Seq<Point>, hull: Seq<usize>, v: int) -> Seq<usize> {
    if front_gives_way(ring, hull, v) || back_gives_way(ring, hull, v) {
        seq![v as usize] + trim_back(ring, trim_front(ring, hull, v), v) + seq![v as usize]
    } else {
        hull
    }
}

/// The hull of the first `k` vertices of the chain, as a closed walk: it starts and
/// ends with the vertex that joined it last.
pub open spec fn hull_upto(ring: Seq<Point>, k: nat) -> Seq<usize>
    decreases k,
{
    if k <= 2 {
        seq![1usize, 0usize, 1usize]
    } else {
        with_vertex(ring, hull_upto(ring, (k - 1) as nat), k - 1)
    }
}

/// The indices of the vertices of the convex hull of the chain, as a closed walk.
pub fn melkman_indices(ring: &Vec<Point>) -> (r: Vec<usize>)
    requires
        ring@.len() >= 2,
        forall|i: int| 0 <= i < ring@.len() ==> (#[trigger] ring@[i]).on_grid(),
    ensures
        r@ == hull_upto(ring@, ring@.len()),
        r@.len() >= 2,
        r@[0] == r@[r@.len() - 1],
        forall|i: int| 0 <= i < r@.len() ==> (#[trigger] r@[i]) < ring@.len(),
{
    let n: usize = ring.len();
    let mut hull: VecDeque<usize> = VecDeque::new();
    hull.push_back(1);
    hull.push_back(0);
    hull.push_back(1);
    assert(hull@ =~= seq![1usize, 0usize, 1usize]);
    let mut k: usize = 2;
    while k < n
        invariant
            n == ring@.len(),
            2 <= k <= n,
            forall|i: int| 0 <= i < ring@.len() ==> (#[trigger] ring@[i]).on_grid(),
            hull@ == hull_upto(ring@, k as nat),
            hull@.len() >= 2,
            hull@[0] == hull@[hull@.len() - 1],
            forall|i: int| 0 <= i < hull@.len() ==> (#[trigger] hull@[i]) < n,
        decreases n - k,
    {
        let v = ring[k];
        let ghost start = hull@;
        let last: usize = hull.len() - 1;
        if orient2d(v, ring[hull[0]], ring[hull[1]]) == Orientation::CounterClockwise || orient2d(
            v,
            ring[hull[last]],
            ring[hull[last - 1]],
        ) == Orientation::Clockwise {
            while hull.len() >= 2 && orient2d(v, ring[hull[0]], ring[hull[1]])
                == Orientation::CounterClockwise
                invariant
                    n == ring@.len(),
                    k < n,
                    v == ring@[k as int],
                    forall|i: int| 0 <= i < ring@.len() ==> (#[trigger] ring@[i]).on_grid(),
                    forall|i: int| 0 <= i < hull@.len() ==> (#[trigger] hull@[i]) < n,
                    trim_front(ring@, hull@, k as int) == trim_front(ring@, start, k as int),
                decreases hull@.len(),
            {
                let ghost before = hull@;
                hull.pop_front();
                assert(hull@ =~= before.subrange(1, before.len() as int));
            }
            let ghost trimmed = hull@;
            while hull.len() >= 2 && orient2d(
                v,
                ring[hull[hull.len() - 1]],
                ring[hull[hull.len() - 2]],
            ) == Orientation::Clockwise
                invariant
                    n == ring@.len(),
                    k < n,
                    v == ring@[k as int],
                    forall|i: int| 0 <= i < ring@.len() ==> (#[trigger] ring@[i]).on_grid(),
                    forall|i: int| 0 <= i < hull@.len() ==> (#[trigger] hull@[i]) < n,
                    trim_back(ring@, hull@, k as int) == trim_back(ring@, trimmed, k as int),
                decreases hull@.len(),
            {
                let ghost before = hull@;
                hull.pop_back();
                assert(hull@ =~= before.drop_last());
            }
            let ghost kept = hull@;
            hull.push_front(k);
            hull.push_back(k);
            assert(hull@ =~= seq![k] + kept + seq![k]);
        }
        k += 1;
    }
    let mut out: Vec<usize> = Vec::new();
    let mut i: usize = 0;
    while i < hull.len()
        invariant
            i <= hull@.len(),
            out@ == hull@.take(i as int),
        decreases hull@.len() - i,
    {
        out.push(hull[i]);
        assert(out@ =~= hull@.take(i + 1));
        i += 1;
    }
    assert(hull@.take(hull@.len() as int) =~= hull@);
    out
}

/// Chains of which the convex hull can be found.
pub trait Melkman {
    /// The chain has two vertices at least, all of them on the grid.
    spec fn has_hull(&self) -> bool;

    /// The vertices of the hull, as a closed walk.
    spec fn hull(&self) -> Seq<usize>;

    /// The indices of the vertices of the convex hull.
    fn hull_indices(&self) -> (r: Vec<usize>)
        requires
            self.has_hull(),
        ensures
            r@ == self.hull(),
    ;
}

impl Melkman for LineString<Point> {
    open spec fn has_hull(&self) -> bool {
        &&& self.items@.len() >= 2
        &&& forall|i: int| 0 <= i < self.items@.len() ==> (#[trigger] self.items@[i]).on_grid()
    }

    open spec fn hull(&self) -> Seq<usize> {
        hull_upto(self.items@, self.items@.len())
    }

    fn hull_indices(&self) -> (r: Vec<usize>) {
        melkman_indices(&self.items)
    }
}

/// Rings that can be cut where they touch their convex hull.
pub trait HullSegments: Melkman {
    /// The pieces of the ring between one vertex of its hull and the next.
    fn hull_segments(&self) -> (r: Vec<Vec<Point>>)
        requires
            self.has_hull(),
        ensures
            views(r@) == self.hull_pieces(),
    ;

    /// The pieces of the ring between the vertices of its hull.
    spec fn hull_pieces(&self) -> Seq<Seq<Point>>;
}

impl HullSegments for LineString<Point> {
    open spec fn hull_pieces(&self) -> Seq<Seq<Point>> {
        pieces(self.items@, self.hull())
    }

    fn hull_segments(&self) -> (r: Vec<Vec<Point>>) {
        let marks = melkman_indices(&self.items);
        cut_at(&self.items, &marks)
    }
}

} // verus!

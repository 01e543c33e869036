//! Well-formedness of a ring before it is triangulated.
use crate::geometry::{orient2d, orientation, Orientation, Point};
use crate::segments::LineString;
use vstd::prelude::*;

verus! {

/// Why a ring is not a simple closed ring on the grid.
#[derive(Clone, Copy, Debug, PartialEq, Eq, Structural)]
pub enum InvalidPolygon {
    /// The ring has fewer than three vertices besides the one that closes it.
    TooFewPoints,
    /// The last vertex is not the first one again.
    OpenChain,
    /// Two edges that are not neighbours share a point.
    SelfIntersection,
    /// The vertex with this index has a coordinate that is not a number of the grid.
    NonFiniteCoord(usize),
}

/// Point `p` lies in the box spanned by `a` and `b`.
pub open spec fn in_box(a: Point, b: Point, p: Point) -> bool {
    &&& (a.x <= p.x <= b.x || b.x <= p.x <= a.x)
    &&& (a.y <= p.y <= b.y || b.y <= p.y <= a.y)
}

/// The closed segments `a`-`b` and `c`-`d` share a point: the ends of each lie on
/// different sides of the other, or an end of one lies on the other.
pub open spec fn segments_meet(a: Point, b: Point, c: Point, d: Point) -> bool {
    let o1 = orientation(a, b, c);
    let o2 = orientation(a, b, d);
    let o3 = orientation(c, d, a);
    let o4 = orientation(c, d, b);
    ||| (o1 != o2 && o3 != o4)
    ||| (o1 == Orientation::Collinear && in_box(a, b, c))
    ||| (o2 == Orientation::Collinear && in_box(a, b, d))
    ||| (o3 == Orientation::Collinear && in_box(c, d, a))
    ||| (o4 == Orientation::Collinear && in_box(c, d, b))
}

/// Edges `i` and `j` of a closed ring of `len` points are not neighbours: they are
/// not consecutive, and they are not the last and the first.
pub open spec fn apart(i: int, j: int, len: int) -> bool {
    0 <= i && i + 1 < j && j + 1 < len && !(i == 0 && j + 2 == len)
}

/// Edges `i` and `j` of the ring are not neighbours and share a point.
pub open spec fn crossing_at(ring: Seq<Point>, i: int, j: int) -> bool {
    apart(i, j, ring.len() as int) && segments_meet(ring[i], ring[i + 1], ring[j], ring[j + 1])
}

/// Some two edges of the ring that are not neighbours share a point.
pub open spec fn self_intersects(ring: Seq<Point>) -> bool {
    exists|i: int, j: int| crossing_at(ring, i, j)
}

/// The index of the first vertex that lies off the grid.
pub open spec fn first_off_grid(ring: Seq<Point>) -> Option<int>
    decreases ring.len(),
{
    if ring.len() == 0 {
        None
    } else {
        match first_off_grid(ring.drop_last()) {
            Some(i) => Some(i),
            None => if ring.last().on_grid() {
                None
            } else {
                Some(ring.len() - 1)
            },
        }
    }
}

/// What is wrong with the ring, if anything: the first of too few points, an open
/// chain, a vertex off the grid, a self-intersection. An empty ring is in order.
pub open spec fn fault_of(ring: Seq<Point>) -> Option<InvalidPolygon> {
    if ring.len() == 0 {
        None
    } else if ring.len() < 4 {
        Some(InvalidPolygon::TooFewPoints)
    } else if ring[0] != ring.last() {
        Some(InvalidPolygon::OpenChain)
    } else if let Some(i) = first_off_grid(ring) {
        Some(InvalidPolygon::NonFiniteCoord(i as usize))
    } else if self_intersects(ring) {
        Some(InvalidPolygon::SelfIntersection)
    } else {
        None
    }
}

proof fn lemma_first_off_grid(ring: Seq<Point>)
    ensures
        first_off_grid(ring).is_none() <==> forall|i: int|
            0 <= i < ring.len() ==> (#[trigger] ring[i]).on_grid(),
        first_off_grid(ring) matches Some(k) ==> 0 <= k < ring.len() && !ring[k].on_grid(),
    decreases ring.len(),
{
    if ring.len() > 0 {
        let head = ring.drop_last();
        lemma_first_off_grid(head);
        if first_off_grid(head).is_none() {
            assert forall|i: int| 0 <= i < ring.len() - 1 implies (#[trigger] ring[i]).on_grid() by {
                assert(head[i] == ring[i]);
            }
        } else {
            let k = first_off_grid(head).unwrap();
            assert(head[k] == ring[k]);
        }
    }
}

fn is_in_box(a: Point, b: Point, p: Point) -> (r: bool)
    ensures
        r == in_box(a, b, p),
{
    ((a.x <= p.x && p.x <= b.x) || (b.x <= p.x && p.x <= a.x)) && ((a.y <= p.y && p.y <= b.y) || (
    b.y <= p.y && p.y <= a.y))
}

/// Whether the closed segments `a`-`b` and `c`-`d` share a point.
pub fn do_segments_meet(a: Point, b: Point, c: Point, d: Point) -> (r: bool)
    requires
        a.on_grid(),
        b.on_grid(),
        c.on_grid(),
        d.on_grid(),
    ensures
        r == segments_meet(a, b, c, d),
{
    let o1 = orient2d(a, b, c);
    let o2 = orient2d(a, b, d);
    let o3 = orient2d(c, d, a);
    let o4 = orient2d(c, d, b);
    (o1 != o2 && o3 != o4) || (o1 == Orientation::Collinear && is_in_box(a, b, c)) || (o2
        == Orientation::Collinear && is_in_box(a, b, d)) || (o3 == Orientation::Collinear
        && is_in_box(c, d, a)) || (o4 == Orientation::Collinear && is_in_box(c, d, b))
}

/// Whether some two edges of the ring that are not neighbours share a point.
pub fn has_self_intersection(ring: &Vec<Point>) -> (r: bool)
    requires
        forall|i: int| 0 <= i < ring@.len() ==> (#[trigger] ring@[i]).on_grid(),
    ensures
        r == self_intersects(ring@),
{
    let len: usize = ring.len();
    if len < 4 {
        assert forall|i: int, j: int| !crossing_at(ring@, i, j) by {}
        return false;
    }
    let mut i: usize = 0;
    while i < len - 3
        invariant
            len == ring@.len(),
            len >= 4,
            forall|k: int| 0 <= k < ring@.len() ==> (#[trigger] ring@[k]).on_grid(),
            forall|p: int, q: int| 0 <= p < i ==> !crossing_at(ring@, p, q),
        decreases len - i,
    {
        let mut j: usize = i + 2;
        while j < len - 1
            invariant
                len == ring@.len(),
                i + 2 <= j,
                i < len - 3,
                len >= 4,
                forall|k: int| 0 <= k < ring@.len() ==> (#[trigger] ring@[k]).on_grid(),
                forall|p: int, q: int| 0 <= p < i ==> !crossing_at(ring@, p, q),
                forall|q: int| q < j ==> !crossing_at(ring@, i as int, q),
            decreases len - j,
        {
            if !(i == 0 && j + 2 == len) && do_segments_meet(
                ring[i],
                ring[i + 1],
                ring[j],
                ring[j + 1],
            ) {
                assert(crossing_at(ring@, i as int, j as int));
                return true;
            }
            j += 1;
        }
        i += 1;
    }
    assert forall|p: int, q: int| !crossing_at(ring@, p, q) by {}
    false
}

/// Checks that the ring is closed, has a vertex to spare, lies on the grid and does
/// not meet itself.
pub fn check_ring(ring: &Vec<Point>) -> (r: Result<(), InvalidPolygon>)
    ensures
        r == match fault_of(ring@) {
            None => Ok::<(), InvalidPolygon>(()),
            Some(fault) => Err::<(), InvalidPolygon>(fault),
        },
{
    let len: usize = ring.len();
    if len == 0 {
        return Ok(());
    }
    if len < 4 {
        return Err(InvalidPolygon::TooFewPoints);
    }
    if ring[0] != ring[len - 1] {
        return Err(InvalidPolygon::OpenChain);
    }
    let mut i: usize = 0;
    while i < len
        invariant
            len == ring@.len(),
            i <= len,
            len >= 4,
            ring@[0] == ring@[len - 1],
            first_off_grid(ring@.take(i as int)).is_none(),
        decreases len - i,
    {
        assert(ring@.take(i + 1).drop_last() =~= ring@.take(i as int));
        if !ring[i].is_on_grid() {
            proof {
                assert(first_off_grid(ring@.take(i + 1)) == Some(i as int));
                lemma_first_off_grid_prefix(ring@, (i + 1) as nat);
            }
            return Err(InvalidPolygon::NonFiniteCoord(i));
        }
        i += 1;
    }
    proof {
        assert(ring@.take(len as int) =~= ring@);
        lemma_first_off_grid(ring@);
    }
    if has_self_intersection(ring) {
        return Err(InvalidPolygon::SelfIntersection);
    }
    Ok(())
}

proof fn lemma_first_off_grid_prefix(ring: Seq<Point>, k: nat)
    requires
        k <= ring.len(),
        first_off_grid(ring.take(k as int)).is_some(),
    ensures
        first_off_grid(ring) == first_off_grid(ring.take(k as int)),
    decreases ring.len() - k,
{
    if k < ring.len() {
        assert(ring.take(k as int + 1).drop_last() =~= ring.take(k as int));
        lemma_first_off_grid_prefix(ring, k + 1);
    } else {
        assert(ring.take(k as int) =~= ring);
    }
}

/// Values that can be checked before they are reduced.
pub trait Validate: Sized {
    /// What is wrong with the value, if anything.
    spec fn fault(&self) -> Option<InvalidPolygon>;

    /// Reports the first fault of the value.
    fn check_validate(&self) -> (r: Result<(), InvalidPolygon>)
        ensures
            r == match self.fault() {
                None => Ok::<(), InvalidPolygon>(()),
                Some(fault) => Err::<(), InvalidPolygon>(fault),
            },
    ;

    /// Whether the value has no fault.
    fn is_valid(&self) -> (r: bool)
        ensures
            r == self.fault().is_none(),
    ;

    /// Hands the value back if it has no fault.
    fn validate(self) -> (r: Result<Self, InvalidPolygon>)
        ensures
            match r {
                Ok(same) => self.fault().is_none() && same == self,
                Err(fault) => self.fault() == Some(fault),
            },
    ;
}

impl Validate for LineString<Point> {
    open spec fn fault(&self) -> Option<InvalidPolygon> {
        fault_of(self.items@)
    }

    fn check_validate(&self) -> (r: Result<(), InvalidPolygon>) {
        check_ring(&self.items)
    }

    fn is_valid(&self) -> (r: bool) {
        check_ring(&self.items).is_ok()
    }

    fn validate(self) -> (r: Result<Self, InvalidPolygon>) {
        match check_ring(&self.items) {
            Ok(()) => Ok(self),
            Err(fault) => Err(fault),
        }
    }
}

} // verus!

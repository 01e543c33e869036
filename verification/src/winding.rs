//! The sense in which a ring winds.
use crate::geometry::Point;
use crate::mesh::ring_succ;
use vstd::prelude::*;

verus! {

/// Why a ring has no winding.
#[derive(Clone, Copy, Debug, PartialEq, Eq, Structural)]
pub enum WindingError {
    /// The ring has fewer than three vertices.
    TooFewPoints,
    /// The ring encloses no area.
    Degenerate,
}

/// What the edge that leaves vertex `i` adds to twice the signed area of the ring.
pub open spec fn area_term(ring: Seq<Point>, i: int) -> int {
    let a = ring[i];
    let b = ring[ring_succ(i, ring.len() as int)];
    a.x * b.y - b.x * a.y
}

/// Twice the signed area under the first `k` edges of the ring.
pub open spec fn area_upto(ring: Seq<Point>, k: nat) -> int
    decreases k,
{
    if k == 0 {
        0
    } else {
        area_upto(ring, (k - 1) as nat) + area_term(ring, k - 1)
    }
}

/// Twice the signed area of the ring, the edge from its last vertex back to its
/// first included: negative for a ring that winds clockwise.
pub open spec fn signed_area_2(ring: Seq<Point>) -> int {
    area_upto(ring, ring.len())
}

proof fn lemma_term_bound(a: Point, b: Point)
    requires
        a.on_grid(),
        b.on_grid(),
    ensures
        -0x2000_0000_0000_0000 <= a.x * b.y - b.x * a.y <= 0x2000_0000_0000_0000,
        -0x1000_0000_0000_0000 <= a.x * b.y <= 0x1000_0000_0000_0000,
        -0x1000_0000_0000_0000 <= b.x * a.y <= 0x1000_0000_0000_0000,
{
    assert(-0x1000_0000_0000_0000 <= a.x * b.y <= 0x1000_0000_0000_0000) by (nonlinear_arith)
        requires
            -0x4000_0000 <= a.x <= 0x4000_0000,
            -0x4000_0000 <= b.y <= 0x4000_0000,
    ;
    assert(-0x1000_0000_0000_0000 <= b.x * a.y <= 0x1000_0000_0000_0000) by (nonlinear_arith)
        requires
            -0x4000_0000 <= b.x <= 0x4000_0000,
            -0x4000_0000 <= a.y <= 0x4000_0000,
    ;
}

/// Whether the ring winds clockwise. The ring is given without a closing vertex.
pub fn is_clockwise(ring: &Vec<Point>) -> (r: Result<bool, WindingError>)
    requires
        forall|i: int| 0 <= i < ring@.len() ==> (#[trigger] ring@[i]).on_grid(),
    ensures
        r == if ring@.len() < 3 {
            Err::<bool, WindingError>(WindingError::TooFewPoints)
        } else if signed_area_2(ring@) == 0 {
            Err::<bool, WindingError>(WindingError::Degenerate)
        } else {
            Ok::<bool, WindingError>(signed_area_2(ring@) < 0)
        },
{
    let n: usize = ring.len();
    if n < 3 {
        return Err(WindingError::TooFewPoints);
    }
    let mut area: i128 = 0;
    let mut i: usize = 0;
    while i < n
        invariant
            n == ring@.len(),
            i <= n,
            forall|k: int| 0 <= k < ring@.len() ==> (#[trigger] ring@[k]).on_grid(),
            area == area_upto(ring@, i as nat),
            -(i * 0x2000_0000_0000_0000) <= area <= i * 0x2000_0000_0000_0000,
        decreases n - i,
    {
        let a = ring[i];
        let b = if i + 1 == n {
            ring[0]
        } else {
            ring[i + 1]
        };
        proof {
            lemma_term_bound(a, b);
        }
        let term: i128 = (a.x as i128) * (b.y as i128) - (b.x as i128) * (a.y as i128);
        area = area + term;
        i += 1;
    }
    if area < 0 {
        Ok(true)
    } else if area > 0 {
        Ok(false)
    } else {
        Err(WindingError::Degenerate)
    }
}

} // verus!

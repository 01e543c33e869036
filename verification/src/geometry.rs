//! Exact planar predicates on grid points.
use vstd::prelude::*;

verus! {

/// Largest absolute value of a grid coordinate (2^30). Within this range every
/// predicate of this module is computed exactly in 128-bit arithmetic.
pub const COORD_LIMIT: i64 = 1073741824;

/// A point of the integer grid.
#[derive(Clone, Copy, Debug, PartialEq, Eq, Structural)]
pub struct Point {
    pub x: i64,
    pub y: i64,
}

/// The sense of rotation of an ordered triple of points.
#[derive(Clone, Copy, Debug, PartialEq, Eq, Structural)]
pub enum Orientation {
    CounterClockwise,
    Clockwise,
    Collinear,
}

impl Point {
    /// Both coordinates lie within the grid limit.
    pub open spec fn on_grid(self) -> bool {
        &&& -COORD_LIMIT <= self.x <= COORD_LIMIT
        &&& -COORD_LIMIT <= self.y <= COORD_LIMIT
    }

    pub fn new(x: i64, y: i64) -> (p: Point)
        ensures
            p.x == x,
            p.y == y,
    {
        Point { x, y }
    }

    pub fn is_on_grid(&self) -> (r: bool)
        ensures
            r == self.on_grid(),
    {
        -COORD_LIMIT <= self.x && self.x <= COORD_LIMIT && -COORD_LIMIT <= self.y && self.y
            <= COORD_LIMIT
    }
}

/// Twice the signed area of the triangle `a`, `b`, `c`: positive when the triple
/// turns counter-clockwise.
pub open spec fn cross(a: Point, b: Point, c: Point) -> int {
    (b.x - a.x) * (c.y - a.y) - (b.y - a.y) * (c.x - a.x)
}

/// The orientation of the triple, by the sign of [`cross`].
pub open spec fn orientation(a: Point, b: Point, c: Point) -> Orientation {
    if cross(a, b, c) > 0 {
        Orientation::CounterClockwise
    } else if cross(a, b, c) < 0 {
        Orientation::Clockwise
    } else {
        Orientation::Collinear
    }
}

/// Twice the unsigned area of the triangle `a`, `b`, `p`. Divided by the length of
/// the chord `a`-`b` it is the perpendicular distance of `p` from that chord, so for
/// a fixed chord it orders points by their distance.
pub open spec fn offset(a: Point, b: Point, p: Point) -> nat {
    if cross(a, b, p) >= 0 {
        cross(a, b, p) as nat
    } else {
        (-cross(a, b, p)) as nat
    }
}

/// The squared length of the segment `a`-`b`.
pub open spec fn length_2(a: Point, b: Point) -> nat {
    ((b.x - a.x) * (b.x - a.x) + (b.y - a.y) * (b.y - a.y)) as nat
}

/// A point at doubled triangle area `off` from a chord of squared length `len_2`
/// lies no farther than `eps` from it: `off / sqrt(len_2) <= eps`, without the root.
pub open spec fn offset_within(off: nat, len_2: nat, eps: nat) -> bool {
    off * off <= eps * eps * len_2
}

/// The perpendicular distance of `p` from the chord `a`-`b` is at most `eps`.
pub open spec fn within(a: Point, b: Point, p: Point, eps: nat) -> bool {
    offset_within(offset(a, b, p), length_2(a, b), eps)
}

proof fn lemma_product_bound(a: int, b: int, m: int)
    by (nonlinear_arith)
    requires
        -m <= a <= m,
        -m <= b <= m,
        m >= 0,
    ensures
        -(m * m) <= a * b <= m * m,
{
}

/// Bounds that hold of every triple of grid points.
pub proof fn lemma_grid_bounds(a: Point, b: Point, p: Point)
    requires
        a.on_grid(),
        b.on_grid(),
        p.on_grid(),
    ensures
        offset(a, b, p) <= 0x8000_0000_0000_0000,
        length_2(a, b) <= 0x8000_0000_0000_0000,
        (b.x - a.x) * (b.x - a.x) >= 0,
        (b.y - a.y) * (b.y - a.y) >= 0,
{
    let m: int = 0x8000_0000;
    lemma_product_bound(b.x - a.x, p.y - a.y, m);
    lemma_product_bound(b.y - a.y, p.x - a.x, m);
    lemma_product_bound(b.x - a.x, b.x - a.x, m);
    lemma_product_bound(b.y - a.y, b.y - a.y, m);
    assert(m * m == 0x4000_0000_0000_0000) by (nonlinear_arith)
        requires
            m == 0x8000_0000,
    ;
    assert((b.x - a.x) * (b.x - a.x) >= 0) by (nonlinear_arith);
    assert((b.y - a.y) * (b.y - a.y) >= 0) by (nonlinear_arith);
}

fn signed_area_2(a: Point, b: Point, c: Point) -> (r: i128)
    requires
        a.on_grid(),
        b.on_grid(),
        c.on_grid(),
    ensures
        r == cross(a, b, c),
{
    proof {
        let m: int = 0x8000_0000;
        lemma_product_bound(b.x - a.x, c.y - a.y, m);
        lemma_product_bound(b.y - a.y, c.x - a.x, m);
        assert(m * m == 0x4000_0000_0000_0000) by (nonlinear_arith)
            requires
                m == 0x8000_0000,
        ;
    }
    let abx: i128 = (b.x - a.x) as i128;
    let aby: i128 = (b.y - a.y) as i128;
    let acx: i128 = (c.x - a.x) as i128;
    let acy: i128 = (c.y - a.y) as i128;
    abx * acy - aby * acx
}

/// The orientation of the triple `a`, `b`, `c`.
pub fn orient2d(a: Point, b: Point, c: Point) -> (r: Orientation)
    requires
        a.on_grid(),
        b.on_grid(),
        c.on_grid(),
    ensures
        r == orientation(a, b, c),
{
    let area: i128 = signed_area_2(a, b, c);
    if area > 0 {
        Orientation::CounterClockwise
    } else if area < 0 {
        Orientation::Clockwise
    } else {
        Orientation::Collinear
    }
}

/// Twice the unsigned area of the triangle `a`, `b`, `p`.
pub fn chord_offset(a: Point, b: Point, p: Point) -> (r: u128)
    requires
        a.on_grid(),
        b.on_grid(),
        p.on_grid(),
    ensures
        r == offset(a, b, p),
        r <= 0x8000_0000_0000_0000,
{
    proof {
        lemma_grid_bounds(a, b, p);
    }
    let area: i128 = signed_area_2(a, b, p);
    if area >= 0 {
        area as u128
    } else {
        (-area) as u128
    }
}

/// The squared length of the segment `a`-`b`.
pub fn chord_length_2(a: Point, b: Point) -> (r: u64)
    requires
        a.on_grid(),
        b.on_grid(),
    ensures
        r == length_2(a, b),
        r <= 0x8000_0000_0000_0000,
{
    proof {
        lemma_grid_bounds(a, b, a);
        let m: int = 0x8000_0000;
        lemma_product_bound(b.x - a.x, b.x - a.x, m);
        lemma_product_bound(b.y - a.y, b.y - a.y, m);
        assert(m * m == 0x4000_0000_0000_0000) by (nonlinear_arith)
            requires
                m == 0x8000_0000,
        ;
    }
    let dx: i128 = (b.x - a.x) as i128;
    let dy: i128 = (b.y - a.y) as i128;
    (dx * dx + dy * dy) as u64
}

/// Decides [`offset_within`] exactly.
pub fn is_offset_within(off: u128, len_2: u64, eps: u32) -> (r: bool)
    requires
        off <= 0x8000_0000_0000_0000,
    ensures
        r == offset_within(off as nat, len_2 as nat, eps as nat),
{
    proof {
        assert(off * off <= 0x4000_0000_0000_0000_0000_0000_0000_0000) by (nonlinear_arith)
            requires
                0 <= off <= 0x8000_0000_0000_0000,
        ;
        assert(eps * eps <= 0xffff_ffff_0000_0000) by (nonlinear_arith)
            requires
                0 <= eps <= 0xffff_ffff,
        ;
        assert(eps * eps * len_2 <= 0xffff_ffff_0000_0000 * 0xffff_ffff_ffff_ffff)
            by (nonlinear_arith)
            requires
                0 <= eps * eps <= 0xffff_ffff_0000_0000,
                0 <= len_2 <= 0xffff_ffff_ffff_ffff,
        ;
    }
    let e: u128 = eps as u128;
    let l: u128 = len_2 as u128;
    off * off <= e * e * l
}

} // verus!

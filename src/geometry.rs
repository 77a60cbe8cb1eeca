//! Integer positions in the plane and the distance tests the level uses.

use vstd::prelude::*;

verus! {

/// A point of the plane, in whole world units.
#[derive(Clone, Copy, Debug, PartialEq, Eq, Structural, Hash, Default)]
pub struct Position {
    pub x: i32,
    pub y: i32,
}

/// Squared euclidean distance between two points.
pub open spec fn dist2(a: Position, b: Position) -> int {
    (a.x - b.x) * (a.x - b.x) + (a.y - b.y) * (a.y - b.y)
}

pub open spec fn abs(v: int) -> int {
    if v < 0 {
        -v
    } else {
        v
    }
}

/// Chebyshev norm of an offset: the larger of its two coordinates' sizes.
pub open spec fn cheb_norm(dx: int, dy: int) -> int {
    if abs(dx) < abs(dy) {
        abs(dy)
    } else {
        abs(dx)
    }
}

/// Chebyshev distance: the larger of the two coordinate gaps.
pub open spec fn cheb(a: Position, b: Position) -> int {
    cheb_norm(a.x - b.x, a.y - b.y)
}

/// Whether `p + (dx, dy)` still has coordinates that fit an `i32`.
pub open spec fn fits(p: Position, dx: int, dy: int) -> bool {
    &&& i32::MIN <= p.x + dx <= i32::MAX
    &&& i32::MIN <= p.y + dy <= i32::MAX
}

/// `p` moved by `(dx, dy)`, for an offset where `fits` holds.
pub open spec fn shifted(p: Position, dx: int, dy: int) -> Position {
    Position { x: (p.x + dx) as i32, y: (p.y + dy) as i32 }
}

/// Every point within Chebyshev distance `2 * d` of `p` has `i32` coordinates.
pub open spec fn ring_fits(p: Position, d: int) -> bool {
    &&& i32::MIN + 2 * d <= p.x <= i32::MAX - 2 * d
    &&& i32::MIN + 2 * d <= p.y <= i32::MAX - 2 * d
}

/// No point at Chebyshev distance `d` to `2 * d` from `p` stands at least `d`
/// away from every point of `positions`: the ring around `p` is full.
pub open spec fn crowded(positions: Seq<Position>, p: Position, d: int) -> bool {
    forall|q: Position| d <= cheb(q, p) <= 2 * d ==> !#[trigger] is_clear(positions, q, d)
}

/// Every point of `positions` is `p` itself or lies at Chebyshev distance at
/// least `3 * d` from it: a ring of radius `d` to `2 * d` around `p` is then free.
pub open spec fn isolated(positions: Seq<Position>, p: Position, d: int) -> bool {
    forall|i: int|
        0 <= i < positions.len() ==> #[trigger] positions[i] == p || cheb(positions[i], p) >= 3 * d
}

/// `p` is at least `d` away from every point of `positions`.
pub open spec fn is_clear(positions: Seq<Position>, p: Position, d: int) -> bool {
    forall|i: int| 0 <= i < positions.len() ==> #[trigger] dist2(positions[i], p) >= d * d
}

/// Every two points of `positions` are at least `d` apart.
pub open spec fn spaced(positions: Seq<Position>, d: int) -> bool {
    forall|i: int, j: int|
        0 <= i < j < positions.len() ==> #[trigger] dist2(positions[i], positions[j]) >= d * d
}

/// `p` is strictly closer than `d` to `q`.
pub open spec fn is_near(p: Position, q: Position, d: int) -> bool {
    dist2(p, q) < d * d
}

proof fn lemma_square_bound(v: int, d: int)
    requires
        0 <= d <= abs(v),
    ensures
        v * v >= d * d,
{
    if v < 0 {
        assert(v * v == (-v) * (-v)) by (nonlinear_arith);
    }
    assert(abs(v) * abs(v) >= d * d) by (nonlinear_arith)
        requires
            0 <= d <= abs(v),
    ;
}

/// Two points whose Chebyshev distance is at least `d` are at least `d` apart.
pub proof fn lemma_cheb_bounds_dist(a: Position, b: Position, d: int)
    requires
        0 <= d <= cheb(a, b),
    ensures
        dist2(a, b) >= d * d,
{
    let dx = a.x - b.x;
    let dy = a.y - b.y;
    assert(dx * dx >= 0) by (nonlinear_arith);
    assert(dy * dy >= 0) by (nonlinear_arith);
    if abs(dx) < abs(dy) {
        lemma_square_bound(dy, d);
    } else {
        lemma_square_bound(dx, d);
    }
}

/// The Chebyshev distance obeys the triangle inequality.
pub proof fn lemma_cheb_triangle(a: Position, b: Position, c: Position)
    ensures
        cheb(a, c) >= cheb(a, b) - cheb(b, c),
{
}

/// Squared distance between two points; it never overflows an `i128`.
pub fn distance_squared(a: Position, b: Position) -> (r: i128)
    ensures
        r == dist2(a, b),
{
    let dx: i128 = a.x as i128 - b.x as i128;
    let dy: i128 = a.y as i128 - b.y as i128;
    assert(dx * dx <= 0x1_0000_0000_0000_0000) by (nonlinear_arith)
        requires
            -0x1_0000_0000 <= dx <= 0x1_0000_0000,
    ;
    assert(dy * dy <= 0x1_0000_0000_0000_0000) by (nonlinear_arith)
        requires
            -0x1_0000_0000 <= dy <= 0x1_0000_0000,
    ;
    assert(dx * dx >= 0) by (nonlinear_arith);
    assert(dy * dy >= 0) by (nonlinear_arith);
    dx * dx + dy * dy
}

/// Whether `p` stands at least `min_distance` away from every point of
/// `positions`.
pub fn is_clear_of(positions: &Vec<Position>, p: Position, min_distance: u32) -> (r: bool)
    ensures
        r == is_clear(positions@, p, min_distance as int),
{
    let d: i128 = min_distance as i128;
    assert(d * d <= 0x1_0000_0000_0000_0000) by (nonlinear_arith)
        requires
            0 <= d <= 0x1_0000_0000,
    ;
    let limit: i128 = d * d;
    let mut i: usize = 0;
    while i < positions.len()
        invariant
            0 <= i <= positions@.len(),
            limit == (min_distance as int) * (min_distance as int),
            forall|k: int| 0 <= k < i ==> #[trigger] dist2(positions@[k], p) >= limit,
        decreases positions@.len() - i,
    {
        if distance_squared(positions[i], p) < limit {
            return false;
        }
        i = i + 1;
    }
    true
}

} // verus!

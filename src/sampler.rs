//! Rejection sampling of a free position near a reference point.

use crate::geometry::{
    abs, cheb, cheb_norm, crowded, fits, is_clear, is_clear_of, isolated, lemma_cheb_bounds_dist,
    lemma_cheb_triangle, ring_fits, shifted, Position,
};
use crate::random::draw_range;
use rand_chacha::ChaCha20Rng;
use vstd::prelude::*;

verus! {

/// Minimum separation between two rooms of a level.
pub const MIN_DISTANCE: u32 = 40;

/// The `t`-th point, counted along the border, of the square of half-side
/// `dist` centred on the origin: the bottom edge left to right, the right edge
/// upwards, the top edge right to left, the left edge downwards.
pub open spec fn ring_point(dist: int, t: int) -> (int, int) {
    let side = t / (2 * dist);
    let k = t % (2 * dist);
    if side == 0 {
        (-dist + k, -dist)
    } else if side == 1 {
        (dist, -dist + k)
    } else if side == 2 {
        (dist - k, dist)
    } else {
        (-dist, dist - k)
    }
}

/// The offset numbered `t` on the square ring of half-side `dist`; it lies at
/// Chebyshev distance exactly `dist` from the origin.
pub fn ring_offset(dist: i64, t: i64) -> (r: (i64, i64))
    requires
        0 < dist <= 0x2_0000_0000,
        0 <= t < 8 * dist,
    ensures
        (r.0 as int, r.1 as int) == ring_point(dist as int, t as int),
        cheb_norm(r.0 as int, r.1 as int) == dist,
{
    let side = t / (2 * dist);
    let k = t % (2 * dist);
    assert(0 <= side < 4) by (nonlinear_arith)
        requires
            0 <= t < 8 * dist,
            side as int == t as int / (2 * dist as int),
            dist > 0,
    ;
    if side == 0 {
        (-dist + k, -dist)
    } else if side == 1 {
        (dist, -dist + k)
    } else if side == 2 {
        (dist - k, dist)
    } else {
        (-dist, dist - k)
    }
}

/// The candidate `reference + offset`, kept if it has `i32` coordinates and
/// stands at least `d` away from every point of `positions`.
pub open spec fn accepted(
    positions: Seq<Position>,
    reference: Position,
    d: int,
    offset: (int, int),
) -> Option<Position> {
    if fits(reference, offset.0, offset.1) && is_clear(
        positions,
        shifted(reference, offset.0, offset.1),
        d,
    ) {
        Some(shifted(reference, offset.0, offset.1))
    } else {
        None
    }
}

/// The first candidate accepted among `offsets`, taken in order.
pub open spec fn first_accepted(
    positions: Seq<Position>,
    reference: Position,
    d: int,
    offsets: Seq<(int, int)>,
) -> Option<Position>
    decreases offsets.len(),
{
    if offsets.len() == 0 {
        None
    } else {
        match first_accepted(positions, reference, d, offsets.drop_last()) {
            Some(p) => Some(p),
            None => accepted(positions, reference, d, offsets.last()),
        }
    }
}

/// `offsets` are the candidates that one search around `reference`, with at
/// most `nb_tries` attempts, drew in order, and `r` is its answer: every
/// offset lies on the ring of radius `d` to `2 * d`, the search stops at the
/// first accepted candidate and returns it, and it answers `None` only after
/// `nb_tries` rejected candidates.
pub open spec fn search_outcome(
    positions: Seq<Position>,
    reference: Position,
    d: int,
    nb_tries: int,
    offsets: Seq<(int, int)>,
    r: Option<Position>,
) -> bool {
    &&& offsets.len() <= nb_tries
    &&& forall|k: int|
        0 <= k < offsets.len() ==> d <= cheb_norm((#[trigger] offsets[k]).0, offsets[k].1) <= 2 * d
    &&& r == first_accepted(positions, reference, d, offsets)
    &&& offsets.len() > 0 ==> first_accepted(positions, reference, d, offsets.drop_last()) is None
    &&& r is None ==> offsets.len() == nb_tries
}

/// Offsets widened to mathematical integers.
pub open spec fn as_offsets(s: Seq<(i64, i64)>) -> Seq<(int, int)> {
    s.map_values(|o: (i64, i64)| (o.0 as int, o.1 as int))
}

/// Once a prefix of `offsets` has an accepted candidate, so has the whole
/// sequence, and it is the same one.
pub proof fn lemma_first_accepted_prefix(
    positions: Seq<Position>,
    reference: Position,
    d: int,
    offsets: Seq<(int, int)>,
    j: int,
)
    requires
        0 <= j <= offsets.len(),
        first_accepted(positions, reference, d, offsets.take(j)) is Some,
    ensures
        first_accepted(positions, reference, d, offsets) == first_accepted(
            positions,
            reference,
            d,
            offsets.take(j),
        ),
    decreases offsets.len(),
{
    if j == offsets.len() {
        assert(offsets.take(j) == offsets);
    } else {
        assert(offsets.drop_last().take(j) == offsets.take(j));
        lemma_first_accepted_prefix(positions, reference, d, offsets.drop_last(), j);
    }
}

/// The candidate `reference + (dx, dy)`, kept if it has `i32` coordinates and
/// stands at least `min_distance` away from every occupied position.
pub fn try_position(
    positions: &Vec<Position>,
    reference: Position,
    min_distance: u32,
    dx: i64,
    dy: i64,
) -> (r: Option<Position>)
    ensures
        r == accepted(positions@, reference, min_distance as int, (dx as int, dy as int)),
{
    let x: i128 = reference.x as i128 + dx as i128;
    let y: i128 = reference.y as i128 + dy as i128;
    if x < i32::MIN as i128 || x > i32::MAX as i128 || y < i32::MIN as i128 || y
        > i32::MAX as i128 {
        return None;
    }
    let candidate = Position { x: x as i32, y: y as i32 };
    if is_clear_of(positions, candidate, min_distance) {
        Some(candidate)
    } else {
        None
    }
}

/// The first of the given candidate offsets, in order, whose candidate around
/// `reference` is accepted.
pub fn pick_first(
    positions: &Vec<Position>,
    reference: Position,
    min_distance: u32,
    offsets: &Vec<(i64, i64)>,
) -> (r: Option<Position>)
    ensures
        r == first_accepted(positions@, reference, min_distance as int, as_offsets(offsets@)),
{
    let ghost d = min_distance as int;
    let ghost all = as_offsets(offsets@);
    let mut i: usize = 0;
    while i < offsets.len()
        invariant
            0 <= i <= offsets@.len(),
            all == as_offsets(offsets@),
            d == min_distance as int,
            first_accepted(positions@, reference, d, all.take(i as int)) is None,
        decreases offsets@.len() - i,
    {
        let (dx, dy) = offsets[i];
        let found = try_position(positions, reference, min_distance, dx, dy);
        assert(all.take(i + 1).drop_last() == all.take(i as int));
        assert(all.take(i + 1).last() == (dx as int, dy as int));
        if let Some(p) = found {
            proof {
                lemma_first_accepted_prefix(positions@, reference, d, all, i + 1);
            }
            return Some(p);
        }
        i = i + 1;
    }
    assert(all.take(i as int) == all);
    None
}

/// Draws one candidate offset: a distance between `d` and `2 * d`, then a
/// point of the square ring of that half-side.
fn draw_offset(rng: &mut ChaCha20Rng, d: u32) -> (r: (i64, i64))
    ensures
        d <= cheb_norm(r.0 as int, r.1 as int) <= 2 * d,
{
    let dist = draw_range(rng, d as i128, 2 * (d as i128) + 1) as i64;
    if dist == 0 {
        (0, 0)
    } else {
        let t = draw_range(rng, 0, 8 * dist as i128) as i64;
        ring_offset(dist, t)
    }
}

/// A candidate on the ring around a free `reference` is always accepted.
proof fn lemma_ring_candidate_accepted(
    positions: Seq<Position>,
    reference: Position,
    d: int,
    dx: int,
    dy: int,
)
    requires
        0 <= d,
        d <= cheb_norm(dx, dy) <= 2 * d,
        ring_fits(reference, d),
        isolated(positions, reference, d),
    ensures
        fits(reference, dx, dy),
        is_clear(positions, shifted(reference, dx, dy), d),
{
    let c = shifted(reference, dx, dy);
    assert(abs(dx) <= 2 * d && abs(dy) <= 2 * d);
    assert(cheb(c, reference) == cheb_norm(dx, dy));
    assert forall|i: int| 0 <= i < positions.len() implies #[trigger] crate::geometry::dist2(
        positions[i],
        c,
    ) >= d * d by {
        let p = positions[i];
        if p == reference {
            lemma_cheb_bounds_dist(c, p, d);
        } else {
            lemma_cheb_triangle(p, reference, c);
            assert(cheb(c, reference) == cheb(reference, c));
        }
        lemma_cheb_bounds_dist(p, c, d);
    }
}

/// Looks for a position at Chebyshev distance `min_distance` to
/// `2 * min_distance` from `reference` that is at least `min_distance` away
/// from every occupied position, drawing a fresh candidate for each of at most
/// `nb_tries` attempts. Failure is an ordinary outcome; it cannot happen on a
/// first attempt when the ring around `reference` is free.
pub fn sample_position(
    positions: &Vec<Position>,
    reference: Position,
    min_distance: u32,
    nb_tries: u32,
    rng: &mut ChaCha20Rng,
) -> (r: Option<Position>)
    ensures
        r matches Some(p) ==> is_clear(positions@, p, min_distance as int) && min_distance <= cheb(
            p,
            reference,
        ) <= 2 * min_distance,
        nb_tries > 0 && ring_fits(reference, min_distance as int) && isolated(
            positions@,
            reference,
            min_distance as int,
        ) ==> r is Some,
        crowded(positions@, reference, min_distance as int) ==> r is None,
        nb_tries == 0 ==> r is None,
        exists|offsets: Seq<(int, int)>|
            #[trigger] search_outcome(
                positions@,
                reference,
                min_distance as int,
                nb_tries as int,
                offsets,
                r,
            ),
{
    let ghost d = min_distance as int;
    let ghost mut drawn: Seq<(int, int)> = Seq::empty();
    let mut tries: u32 = 0;
    while tries < nb_tries
        invariant
            tries <= nb_tries,
            d == min_distance as int,
            drawn.len() == tries,
            forall|k: int|
                0 <= k < drawn.len() ==> d <= cheb_norm((#[trigger] drawn[k]).0, drawn[k].1) <= 2 * d,
            first_accepted(positions@, reference, d, drawn) is None,
            nb_tries > 0 && ring_fits(reference, min_distance as int) && isolated(
                positions@,
                reference,
                min_distance as int,
            ) ==> tries == 0,
        decreases nb_tries - tries,
    {
        let (dx, dy) = draw_offset(rng, min_distance);
        let found = try_position(positions, reference, min_distance, dx, dy);
        let ghost next = drawn.push((dx as int, dy as int));
        assert(next.drop_last() == drawn);
        if let Some(p) = found {
            assert(cheb(p, reference) == cheb_norm(dx as int, dy as int));
            assert(search_outcome(positions@, reference, d, nb_tries as int, next, Some(p)));
            return Some(p);
        }
        proof {
            if ring_fits(reference, min_distance as int) && isolated(
                positions@,
                reference,
                min_distance as int,
            ) {
                lemma_ring_candidate_accepted(
                    positions@,
                    reference,
                    min_distance as int,
                    dx as int,
                    dy as int,
                );
            }
        }
        proof {
            drawn = next;
        }
        tries = tries + 1;
    }
    assert(search_outcome(positions@, reference, d, nb_tries as int, drawn, None));
    None
}

/// The searches made around `refs`, in order, with the offsets each one drew:
/// every search but the last answered `None`, `r` is the answer of the last,
/// and `None` means that every reference point was searched.
pub open spec fn around_outcome(
    positions: Seq<Position>,
    refs: Seq<Position>,
    d: int,
    nb_tries: int,
    draws: Seq<Seq<(int, int)>>,
    r: Option<Position>,
) -> bool {
    &&& draws.len() <= refs.len()
    &&& forall|i: int|
        0 <= i < draws.len() ==> search_outcome(
            positions,
            refs[i],
            d,
            nb_tries,
            #[trigger] draws[i],
            if i == draws.len() - 1 {
                r
            } else {
                None
            },
        )
    &&& r is None ==> draws.len() == refs.len()
    &&& r is Some ==> draws.len() > 0
}

/// Tries each reference point in turn, `nb_tries` attempts each, and returns
/// the first free position found at the game's minimum separation.
pub fn get_position_around(
    nb_tries: u32,
    positions: Vec<Position>,
    ref_points: Vec<Position>,
    rng: &mut ChaCha20Rng,
) -> (r: Option<Position>)
    ensures
        r matches Some(p) ==> is_clear(positions@, p, MIN_DISTANCE as int) && exists|k: int|
            0 <= k < ref_points@.len() && MIN_DISTANCE <= #[trigger] cheb(p, ref_points@[k]) <= 2
                * MIN_DISTANCE,
        nb_tries > 0 && (exists|k: int|
            0 <= k < ref_points@.len() && ring_fits(#[trigger] ref_points@[k], MIN_DISTANCE as int)
                && isolated(positions@, ref_points@[k], MIN_DISTANCE as int)) ==> r is Some,
        nb_tries == 0 || ref_points@.len() == 0 ==> r is None,
        exists|draws: Seq<Seq<(int, int)>>|
            #[trigger] around_outcome(
                positions@,
                ref_points@,
                MIN_DISTANCE as int,
                nb_tries as int,
                draws,
                r,
            ),
{
    let ghost d = MIN_DISTANCE as int;
    let ghost mut draws: Seq<Seq<(int, int)>> = Seq::empty();
    let mut i: usize = 0;
    while i < ref_points.len()
        invariant
            0 <= i <= ref_points@.len(),
            d == MIN_DISTANCE as int,
            draws.len() == i,
            forall|k: int|
                0 <= k < i ==> search_outcome(
                    positions@,
                    ref_points@[k],
                    d,
                    nb_tries as int,
                    #[trigger] draws[k],
                    None,
                ),
            nb_tries > 0 ==> forall|k: int|
                0 <= k < i ==> !(ring_fits(#[trigger] ref_points@[k], MIN_DISTANCE as int)
                    && isolated(positions@, ref_points@[k], MIN_DISTANCE as int)),
        decreases ref_points@.len() - i,
    {
        let reference = ref_points[i];
        let found = sample_position(&positions, reference, MIN_DISTANCE, nb_tries, rng);
        let ghost offsets = choose|o: Seq<(int, int)>|
            #[trigger] search_outcome(positions@, reference, d, nb_tries as int, o, found);
        let ghost next = draws.push(offsets);
        assert(next[i as int] == offsets);
        if let Some(p) = found {
            assert(MIN_DISTANCE <= cheb(p, ref_points@[i as int]) <= 2 * MIN_DISTANCE);
            assert(around_outcome(positions@, ref_points@, d, nb_tries as int, next, Some(p)));
            return Some(p);
        }
        proof {
            draws = next;
        }
        i = i + 1;
    }
    assert(around_outcome(positions@, ref_points@, d, nb_tries as int, draws, None));
    None
}

} // verus!

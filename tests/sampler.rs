use rand::SeedableRng;
use rand_chacha::ChaCha20Rng;
use room_graph::{
    distance_squared, get_position_around, is_clear_of, ring_offset, sample_position,
    try_position, Position,
};

fn at(x: i32, y: i32) -> Position {
    Position { x, y }
}

#[test]
fn distance_squared_is_exact() {
    assert_eq!(distance_squared(at(0, 0), at(3, 4)), 25);
    assert_eq!(
        distance_squared(at(i32::MIN, i32::MIN), at(i32::MAX, i32::MAX)),
        2 * (u32::MAX as i128) * (u32::MAX as i128)
    );
}

#[test]
fn clearance_is_inclusive() {
    let occupied = vec![at(0, 0), at(100, 0)];
    assert!(is_clear_of(&occupied, at(40, 0), 40));
    assert!(!is_clear_of(&occupied, at(39, 0), 40));
    assert!(!is_clear_of(&occupied, at(61, 0), 40));
    assert!(is_clear_of(&vec![], at(0, 0), 40));
}

#[test]
fn ring_offset_walks_the_square_border() {
    assert_eq!(ring_offset(40, 0), (-40, -40));
    assert_eq!(ring_offset(40, 79), (39, -40));
    assert_eq!(ring_offset(40, 80), (40, -40));
    assert_eq!(ring_offset(40, 120), (40, 0));
    assert_eq!(ring_offset(40, 160), (40, 40));
    assert_eq!(ring_offset(40, 240), (-40, 40));
    assert_eq!(ring_offset(40, 319), (-40, -39));
    for t in 0..8 * 5 {
        let (x, y) = ring_offset(5, t);
        assert_eq!(x.abs().max(y.abs()), 5);
    }
}

#[test]
fn offset_forty_is_accepted_next_to_lone_room() {
    let occupied = vec![at(0, 0)];
    assert_eq!(try_position(&occupied, at(0, 0), 40, 40, 0), Some(at(40, 0)));
    assert_eq!(try_position(&occupied, at(0, 0), 40, 39, 0), None);
}

#[test]
fn candidates_outside_coordinate_range_are_rejected() {
    assert_eq!(try_position(&vec![], at(i32::MAX, 0), 40, 1, 0), None);
    assert_eq!(
        try_position(&vec![], at(i32::MAX - 1, 0), 40, 1, 0),
        Some(at(i32::MAX, 0))
    );
}

#[test]
fn sampled_positions_lie_on_the_ring_and_vary() {
    let mut rng = ChaCha20Rng::seed_from_u64(9);
    let occupied = vec![at(10, 10)];
    let mut seen = Vec::new();
    for _ in 0..30 {
        let p = sample_position(&occupied, at(10, 10), 40, 1, &mut rng).unwrap();
        let cheb = (p.x - 10).abs().max((p.y - 10).abs());
        assert!((40..=80).contains(&cheb));
        assert!(distance_squared(p, at(10, 10)) >= 1600);
        if !seen.contains(&p) {
            seen.push(p);
        }
    }
    assert!(seen.len() > 20);
}

#[test]
fn zero_tries_never_find_a_position() {
    let mut rng = ChaCha20Rng::seed_from_u64(9);
    assert_eq!(sample_position(&vec![], at(0, 0), 40, 0, &mut rng), None);
}

#[test]
fn get_position_around_uses_each_reference() {
    let mut rng = ChaCha20Rng::seed_from_u64(2);
    assert_eq!(get_position_around(5, vec![at(0, 0)], vec![], &mut rng), None);
    let mut occupied = Vec::new();
    for i in -3..=3 {
        for j in -3..=3 {
            occupied.push(at(i * 50, j * 50));
        }
    }
    occupied.push(at(1000, 1000));
    let p = get_position_around(5, occupied.clone(), vec![at(0, 0), at(1000, 1000)], &mut rng)
        .unwrap();
    let cheb = (p.x - 1000).abs().max((p.y - 1000).abs());
    assert!((40..=80).contains(&cheb));
    assert!(is_clear_of(&occupied, p, 40));
}

#[test]
fn pick_first_returns_first_accepted_candidate() {
    let occupied = vec![at(0, 0), at(0, 60)];
    let offsets = vec![(10, 0), (0, 40), (40, 0), (-40, 0)];
    assert_eq!(
        room_graph::sampler::pick_first(&occupied, at(0, 0), 40, &offsets),
        Some(at(40, 0))
    );
    assert_eq!(
        room_graph::sampler::pick_first(&occupied, at(0, 0), 40, &vec![(10, 0), (0, 40)]),
        None
    );
    assert_eq!(
        room_graph::sampler::pick_first(&occupied, at(0, 0), 40, &vec![]),
        None
    );
}

#[test]
fn zero_tries_around_any_reference_give_none() {
    let mut rng = ChaCha20Rng::seed_from_u64(4);
    assert_eq!(get_position_around(0, vec![], vec![at(0, 0)], &mut rng), None);
}

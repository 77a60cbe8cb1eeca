use room_graph::builder::{
    ADD_TRIES, CLUTTER_LIMIT, LEVEL_STEPS, NEIGHBOUR_RADIUS, ROOM_DATA, SEED_DATA, SEED_SPREAD,
    STEP_ATTEMPTS,
};
use room_graph::{
    create_level, create_room, distance_squared, MapBuilder, Position, RandomDeterministic, RoomId,
    RoomMap,
};

fn snapshot(map: &RoomMap<i32>) -> Vec<(RoomId, Position, Vec<RoomId>, i32)> {
    map.iter()
        .into_iter()
        .map(|(id, room)| (id, room.position, room.connections.clone(), room.data))
        .collect()
}

#[test]
fn builder_counts_failures() {
    let mut builder = MapBuilder::new();
    assert_eq!(builder.nb_gen_tries(RoomId(4)), 0);
    builder.record_failure(RoomId(4));
    builder.record_failure(RoomId(4));
    builder.record_failure(RoomId(5));
    assert_eq!(builder.nb_gen_tries(RoomId(4)), 2);
    assert_eq!(builder.nb_gen_tries(RoomId(5)), 1);
    builder.clear();
    assert_eq!(builder.nb_gen_tries(RoomId(4)), 0);
}

#[test]
fn frontier_skips_cluttered_rooms() {
    let mut map: RoomMap<i32> = RoomMap::new();
    let a = map.create_raw(0, Position { x: 0, y: 0 }, vec![]);
    let b = map.create_raw(0, Position { x: 100, y: 0 }, vec![]);
    let c = map.create_raw(0, Position { x: 200, y: 0 }, vec![]);
    let mut builder = MapBuilder::default();
    builder.record_failure(b);
    assert_eq!(builder.frontier(&map), vec![a, b, c]);
    builder.record_failure(b);
    assert_eq!(builder.frontier(&map), vec![a, c]);
    assert_eq!(CLUTTER_LIMIT, 1);
}

#[test]
fn empty_level_gets_a_seed_room() {
    let mut map: RoomMap<i32> = RoomMap::new();
    let mut builder = MapBuilder::new();
    let mut random = RandomDeterministic::new(17);
    create_room(&mut map, &mut builder, &mut random);
    assert_eq!(map.len(), 1);
    let room = map.get(RoomId(0)).unwrap();
    assert!(room.connections.is_empty());
    assert_eq!(room.data, SEED_DATA);
    assert!(room.position.x.abs() as i64 <= SEED_SPREAD);
    assert!(room.position.y.abs() as i64 <= SEED_SPREAD);
}

#[test]
fn lone_room_always_grows() {
    for seed in 0..20u64 {
        let mut map: RoomMap<i32> = RoomMap::new();
        let a = map.create_raw(0, Position { x: 0, y: 0 }, vec![]);
        let mut builder = MapBuilder::new();
        let mut random = RandomDeterministic::new(seed);
        create_room(&mut map, &mut builder, &mut random);
        assert_eq!(map.len(), 2);
        let b = map.get(RoomId(1)).unwrap();
        assert_eq!(b.data, ROOM_DATA);
        assert_eq!(b.connections[0], a);
        let near = distance_squared(b.position, Position { x: 0, y: 0 })
            < (NEIGHBOUR_RADIUS as i128) * (NEIGHBOUR_RADIUS as i128);
        let expected: Vec<RoomId> = if near { vec![a, a] } else { vec![a] };
        assert_eq!(b.connections, expected);
        let back: Vec<RoomId> = if near { vec![RoomId(1), RoomId(1)] } else { vec![RoomId(1)] };
        assert_eq!(map.get(a).unwrap().connections, back);
    }
}

#[test]
fn new_room_is_wired_to_close_neighbours() {
    let mut map: RoomMap<i32> = RoomMap::new();
    let mut builder = MapBuilder::new();
    let mut random = RandomDeterministic::new(23);
    for _ in 0..15 {
        let before = snapshot(&map);
        create_room(&mut map, &mut builder, &mut random);
        let after = snapshot(&map);
        if after.len() == before.len() {
            assert_eq!(after, before);
            continue;
        }
        assert_eq!(after.len(), before.len() + 1);
        let (new_id, p, conns, _) = after.last().unwrap().clone();
        if before.is_empty() {
            assert!(conns.is_empty());
            continue;
        }
        let from = conns[0];
        let near: Vec<RoomId> = before
            .iter()
            .filter(|(_, q, _, _)| distance_squared(p, *q) < 2500)
            .map(|(id, _, _, _)| *id)
            .collect();
        let mut expected = vec![from];
        expected.extend(near.iter().copied());
        assert_eq!(conns, expected);
        for (old, new) in before.iter().zip(after.iter()) {
            let mut want = old.2.clone();
            if old.0 == from {
                want.push(new_id);
            }
            if near.contains(&old.0) {
                want.push(new_id);
            }
            assert_eq!(new.2, want);
            assert!(distance_squared(p, old.1) >= 1600);
        }
    }
}

#[test]
fn same_seed_gives_same_level() {
    let run = |seed: u64| {
        let mut map: RoomMap<i32> = RoomMap::new();
        let mut builder = MapBuilder::new();
        let mut random = RandomDeterministic::new(seed);
        create_level(&mut map, &mut builder, &mut random);
        for _ in 0..10 {
            create_room(&mut map, &mut builder, &mut random);
        }
        snapshot(&map)
    };
    let first = run(1234);
    let second = run(1234);
    assert_eq!(first, second);
    assert!(first.len() >= 2);
    assert_ne!(first, run(4321));
}

#[test]
fn level_rooms_keep_their_distance() {
    let mut map: RoomMap<i32> = RoomMap::new();
    let mut builder = MapBuilder::new();
    let mut random = RandomDeterministic::new(99);
    create_level(&mut map, &mut builder, &mut random);
    assert!(map.len() >= 2);
    assert!(map.len() <= LEVEL_STEPS as usize);
    let rooms = snapshot(&map);
    for i in 0..rooms.len() {
        for j in 0..i {
            assert!(distance_squared(rooms[i].1, rooms[j].1) >= 1600);
        }
    }
    assert_eq!(STEP_ATTEMPTS, 5);
    assert_eq!(ADD_TRIES, 10);
}

#[test]
fn random_source_keeps_its_seed() {
    let random = RandomDeterministic::new(77);
    assert_eq!(random.seed, 77);
}

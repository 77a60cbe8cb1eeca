use rand::SeedableRng;
use rand_chacha::ChaCha20Rng;
use room_graph::{ErrorAdd, Position, RoomId, RoomMap, MIN_DISTANCE};

fn at(x: i32, y: i32) -> Position {
    Position { x, y }
}

fn dist2(a: Position, b: Position) -> i64 {
    let dx = a.x as i64 - b.x as i64;
    let dy = a.y as i64 - b.y as i64;
    dx * dx + dy * dy
}

#[test]
fn create_raw_gives_increasing_ids() {
    let mut map: RoomMap<i32> = RoomMap::new();
    assert!(map.is_empty());
    let a = map.create_raw(5, at(1, 2), vec![RoomId(99)]);
    let b = map.create_raw(6, at(3, 4), vec![]);
    assert_eq!(a, RoomId(0));
    assert_eq!(b, RoomId(1));
    assert_eq!(map.len(), 2);
    let room = map.get(a).unwrap();
    assert_eq!(room.connections, vec![RoomId(99)]);
    assert_eq!(room.position, at(1, 2));
    assert_eq!(room.data, 5);
    assert!(map.get(RoomId(2)).is_none());
}

#[test]
fn ids_are_never_reused_after_removal() {
    let mut map: RoomMap<i32> = RoomMap::new();
    let a = map.create_raw(0, at(0, 0), vec![]);
    let b = map.create_raw(0, at(100, 0), vec![]);
    map.remove(b);
    let c = map.create_raw(0, at(200, 0), vec![]);
    assert_eq!(c, RoomId(2));
    assert_ne!(c, a);
    assert_ne!(c, b);
}

#[test]
fn connect_appends_and_reports_missing_source() {
    let mut map: RoomMap<i32> = RoomMap::new();
    let a = map.create_raw(0, at(0, 0), vec![]);
    assert_eq!(map.connect(a, RoomId(42)), Ok(()));
    assert_eq!(map.connect(a, RoomId(42)), Ok(()));
    assert_eq!(map.get(a).unwrap().connections, vec![RoomId(42), RoomId(42)]);
    assert_eq!(
        map.connect(RoomId(7), a),
        Err(ErrorAdd::InexistantFromRoomId(RoomId(7)))
    );
}

#[test]
fn add_from_missing_room_fails() {
    let mut map: RoomMap<i32> = RoomMap::new();
    map.create_raw(0, at(0, 0), vec![]);
    let mut rng = ChaCha20Rng::seed_from_u64(1);
    assert_eq!(
        map.add(RoomId(3), 1, &mut rng, 10),
        Err(ErrorAdd::InexistantFromRoomId(RoomId(3)))
    );
    assert_eq!(map.len(), 1);
}

#[test]
fn add_from_lone_room_succeeds_with_fresh_id() {
    for seed in 0..50u64 {
        let mut map: RoomMap<i32> = RoomMap::new();
        let a = map.create_raw(0, at(0, 0), vec![]);
        let mut rng = ChaCha20Rng::seed_from_u64(seed);
        let b = map.add(a, 1, &mut rng, 5).unwrap();
        assert_ne!(a, b);
        assert_eq!(map.len(), 2);
        let pb = map.get(b).unwrap().position;
        assert!(dist2(pb, at(0, 0)) >= 40 * 40);
        let cheb = pb.x.abs().max(pb.y.abs());
        assert!((40..=80).contains(&cheb));
        assert_eq!(map.get(a).unwrap().connections, vec![b]);
        assert_eq!(map.get(b).unwrap().connections, vec![a]);
    }
}

#[test]
fn successful_adds_keep_every_room_connected() {
    let mut map: RoomMap<i32> = RoomMap::new();
    let seed_room = map.create_raw(0, at(0, 0), vec![]);
    let mut rng = ChaCha20Rng::seed_from_u64(11);
    let mut ids = vec![seed_room];
    let mut successes = 0;
    let mut k = 0usize;
    while successes < 20 {
        let from = ids[k % ids.len()];
        if let Ok(id) = map.add(from, 1, &mut rng, 20) {
            ids.push(id);
            successes += 1;
        }
        k += 7;
    }
    assert_eq!(map.len(), successes + 1);
    for (_, room) in map.iter() {
        assert!(!room.connections.is_empty());
    }
    let rooms = map.iter();
    for i in 0..rooms.len() {
        for j in 0..i {
            assert!(dist2(rooms[i].1.position, rooms[j].1.position) >= 40 * 40);
        }
    }
}

#[test]
fn crowded_room_always_fails() {
    let mut map: RoomMap<i32> = RoomMap::new();
    let mut center = RoomId(0);
    for i in -3..=3 {
        for j in -3..=3 {
            let id = map.create_raw(0, at(i * 50, j * 50), vec![]);
            if i == 0 && j == 0 {
                center = id;
            }
        }
    }
    for seed in 0..20u64 {
        let mut rng = ChaCha20Rng::seed_from_u64(seed);
        assert_eq!(
            map.add(center, 1, &mut rng, 30),
            Err(ErrorAdd::NoPlaceFound(center))
        );
    }
    assert_eq!(map.len(), 49);
}

#[test]
fn failures_grow_as_a_room_gets_crowded() {
    let mut rng = ChaCha20Rng::seed_from_u64(3);
    let mut map: RoomMap<i32> = RoomMap::new();
    let a = map.create_raw(0, at(0, 0), vec![]);
    let mut early_failures = 0;
    let mut late_failures = 0;
    for call in 0..200 {
        if map.add(a, 1, &mut rng, 1).is_err() {
            if call < 10 {
                early_failures += 1;
            } else if call >= 190 {
                late_failures += 1;
            }
        }
    }
    assert!(late_failures > early_failures);
}

#[test]
fn packed_area_rejects_new_room() {
    let mut map: RoomMap<i32> = RoomMap::new();
    let mut count = 0;
    let mut center = RoomId(0);
    'fill: for i in 0..15 {
        for j in 0..14 {
            let id = map.create_raw(0, at(i * 7, j * 7), vec![]);
            if i == 7 && j == 7 {
                center = id;
            }
            count += 1;
            if count == 200 {
                break 'fill;
            }
        }
    }
    assert_eq!(map.len(), 200);
    let mut failures = 0;
    for seed in 0..50u64 {
        let mut rng = ChaCha20Rng::seed_from_u64(seed);
        match map.add(center, 1, &mut rng, 1) {
            Err(e) => {
                assert_eq!(e, ErrorAdd::NoPlaceFound(center));
                failures += 1;
            }
            Ok(id) => map.remove(id),
        }
    }
    assert!(failures >= 45);
}

#[test]
fn remove_drops_one_room_and_leaves_references() {
    let mut map: RoomMap<i32> = RoomMap::new();
    let mut rng = ChaCha20Rng::seed_from_u64(5);
    let a = map.create_raw(0, at(0, 0), vec![]);
    let b = map.add(a, 1, &mut rng, 10).unwrap();
    assert_eq!(map.len(), 2);
    map.remove(b);
    assert_eq!(map.len(), 1);
    assert!(map.iter().iter().all(|(id, _)| *id != b));
    assert!(map.get(b).is_none());
    assert_eq!(map.get(a).unwrap().connections, vec![b]);
    map.remove(b);
    assert_eq!(map.len(), 1);
}

#[test]
fn iter_mut_changes_rooms_in_place() {
    let mut map: RoomMap<i32> = RoomMap::new();
    let a = map.create_raw(0, at(0, 0), vec![]);
    let b = map.create_raw(0, at(9, 9), vec![]);
    {
        let (ids, rooms) = map.iter_mut();
        assert_eq!(ids, &[a, b]);
        for room in rooms.iter_mut() {
            room.data += 3;
        }
    }
    assert_eq!(map.get(a).unwrap().data, 3);
    assert_eq!(map.get(b).unwrap().data, 3);
    assert_eq!(map.room_ids(), vec![a, b]);
}

#[test]
fn min_distance_is_forty() {
    assert_eq!(MIN_DISTANCE, 40);
}

#[test]
fn placed_offset_gives_two_way_connection() {
    let mut map: RoomMap<i32> = RoomMap::new();
    let a = map.create_raw(0, at(0, 0), vec![]);
    let occupied = vec![at(0, 0)];
    let found = room_graph::try_position(&occupied, at(0, 0), 40, 40, 0);
    let b = map.add_at(a, 1, found).unwrap();
    assert_ne!(a, b);
    assert_eq!(map.get(b).unwrap().position, at(40, 0));
    assert_eq!(map.get(a).unwrap().connections, vec![b]);
    assert_eq!(map.get(b).unwrap().connections, vec![a]);
    assert_eq!(map.get(b).unwrap().data, 1);
}

#[test]
fn add_at_reports_each_error() {
    let mut map: RoomMap<i32> = RoomMap::new();
    let a = map.create_raw(0, at(0, 0), vec![]);
    assert_eq!(map.add_at(a, 1, None), Err(ErrorAdd::NoPlaceFound(a)));
    assert_eq!(
        map.add_at(RoomId(5), 1, Some(at(40, 0))),
        Err(ErrorAdd::InexistantFromRoomId(RoomId(5)))
    );
    assert_eq!(map.len(), 1);
    assert!(map.get(a).unwrap().connections.is_empty());
}

#[test]
fn adds_from_one_seed_form_a_star() {
    let mut map: RoomMap<i32> = RoomMap::new();
    let s = map.create_raw(0, at(0, 0), vec![]);
    let mut rng = ChaCha20Rng::seed_from_u64(21);
    let mut added = vec![];
    for _ in 0..4 {
        if let Ok(b) = map.add(s, 1, &mut rng, 50) {
            added.push(b);
        }
    }
    assert!(!added.is_empty());
    assert_eq!(map.len(), added.len() + 1);
    assert_eq!(map.get(s).unwrap().connections, added);
    for (k, b) in added.iter().enumerate() {
        assert_eq!(*b, RoomId(k + 1));
        assert_eq!(map.get(*b).unwrap().connections, vec![s]);
    }
}

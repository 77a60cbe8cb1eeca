use room_graph::{
    can_move_to, collect_pickups, destroy_room, expand_room, pick_connection, spawn_def, Position,
    RandomDeterministic, RoomId, RoomMap,
};

fn line_of_rooms(n: i32) -> RoomMap<i32> {
    let mut map = RoomMap::new();
    for i in 0..n {
        map.create_raw(0, Position { x: i * 100, y: 0 }, vec![]);
    }
    map
}

#[test]
fn expand_grows_from_requested_room() {
    let mut map = line_of_rooms(1);
    let mut random = RandomDeterministic::new(3);
    let id = expand_room(&mut map, RoomId(0), &mut random).unwrap();
    assert_eq!(id, RoomId(1));
    assert_eq!(map.get(id).unwrap().connections, vec![RoomId(0)]);
    assert_eq!(expand_room(&mut map, RoomId(9), &mut random), None);
    assert_eq!(map.len(), 2);
}

#[test]
fn destroy_keeps_last_room() {
    let mut map = line_of_rooms(2);
    assert!(!destroy_room(&mut map, RoomId(5)));
    assert!(destroy_room(&mut map, RoomId(0)));
    assert_eq!(map.len(), 1);
    assert!(!destroy_room(&mut map, RoomId(1)));
    assert_eq!(map.len(), 1);
}

#[test]
fn units_move_along_connections() {
    let mut map = line_of_rooms(3);
    map.connect(RoomId(0), RoomId(1)).unwrap();
    assert!(can_move_to(&map, RoomId(0), RoomId(1)));
    assert!(!can_move_to(&map, RoomId(1), RoomId(0)));
    assert!(!can_move_to(&map, RoomId(0), RoomId(2)));
    assert!(!can_move_to(&map, RoomId(0), RoomId(0)));
    assert!(!can_move_to(&map, RoomId(8), RoomId(0)));
}

#[test]
fn picked_connection_is_a_neighbour() {
    let mut map = line_of_rooms(4);
    let mut random = RandomDeterministic::new(5);
    assert_eq!(pick_connection(map.get(RoomId(0)).unwrap(), &mut random), None);
    map.connect(RoomId(0), RoomId(2)).unwrap();
    map.connect(RoomId(0), RoomId(3)).unwrap();
    let mut seen = vec![];
    for _ in 0..40 {
        let c = pick_connection(map.get(RoomId(0)).unwrap(), &mut random).unwrap();
        assert!(c == RoomId(2) || c == RoomId(3));
        if !seen.contains(&c) {
            seen.push(c);
        }
    }
    assert_eq!(seen.len(), 2);
}

#[test]
fn spawn_rooms_follow_creation_order() {
    assert!(spawn_def(&line_of_rooms(6)).is_none());
    let map = line_of_rooms(9);
    let def = spawn_def(&map).unwrap();
    assert_eq!(def.players, vec![RoomId(0), RoomId(2), RoomId(8)]);
    assert_eq!(def.points, vec![RoomId(3), RoomId(4), RoomId(5), RoomId(6)]);
}

#[test]
fn arriving_collects_pickups_of_that_room() {
    let pickups = vec![RoomId(3), RoomId(4), RoomId(3), RoomId(6)];
    assert_eq!(collect_pickups(&pickups, RoomId(3)), vec![RoomId(4), RoomId(6)]);
    assert_eq!(collect_pickups(&pickups, RoomId(9)), pickups);
    assert!(collect_pickups(&vec![RoomId(1)], RoomId(1)).is_empty());
}

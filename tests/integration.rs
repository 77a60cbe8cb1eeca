use rand::SeedableRng;
use rand_chacha::ChaCha20Rng;
use room_graph::{Position, RoomMap};

#[test]
fn add() {
    let mut map = RoomMap::default();
    let mut room_id = map.create_raw(0, Position { x: 0, y: 0 }, vec![]);
    let mut rng = ChaCha20Rng::seed_from_u64(7);

    let add_res = map.add(room_id, 1, &mut rng, 1);
    assert!(add_res.is_ok(), "second room creation must always succeed");
    room_id = add_res.unwrap();

    assert!(
        map.add(room_id, 1, &mut rng, 5).is_ok(),
        "third room creation is very likely to succeed"
    );

    let mut has_failed = false;
    for _ in 0..100 {
        let add_res = map.add(room_id, 1, &mut rng, 1);
        if add_res.is_err() {
            has_failed = true;
            break;
        }
        room_id = add_res.unwrap();
    }
    assert!(
        has_failed,
        "Adding a lot of rooms has a very high chance of failure"
    );
}

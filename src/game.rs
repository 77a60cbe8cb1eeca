//! Game rules that read or change the room graph: expanding and destroying
//! rooms on demand, where units may move, and where they start.

use crate::builder::ROOM_DATA;
use crate::geometry::{cheb, is_clear, isolated, ring_fits};
use crate::map::{Room, RoomId, RoomMap};
use crate::random::{draw_range, RandomDeterministic};
use crate::sampler::MIN_DISTANCE;
use vstd::prelude::*;

verus! {

/// Growth attempts made when a player expands a room.
pub const EXPAND_ATTEMPTS: u32 = 2;

/// Placement attempts per growth attempt when a player expands a room.
pub const EXPAND_TRIES: u32 = 15;

/// Rooms a level needs before units and pickups can be placed.
pub const SPAWN_ROOMS: usize = 7;

/// Grows one room from `from` on a player's request, with up to
/// `EXPAND_ATTEMPTS` calls of `add`. Returns the new room, or `None` with the
/// level left as it was.
pub fn expand_room(map: &mut RoomMap<i32>, from: RoomId, random: &mut RandomDeterministic) -> (r:
    Option<RoomId>)
    requires
        old(map).wf(),
        old(map).next_id() < usize::MAX,
    ensures
        final(map).wf(),
        r is None ==> RoomMap::unchanged(old(map), final(map)),
        !old(map).contains(from) ==> r is None,
        r matches Some(id) ==> {
            let p = final(map).rooms().last().position;
            &&& id == RoomId(old(map).next_id() as usize)
            &&& RoomMap::grown_from(old(map), final(map), from, ROOM_DATA, p)
            &&& is_clear(old(map).positions(), p, MIN_DISTANCE as int)
            &&& MIN_DISTANCE <= cheb(p, old(map).position_of(from)) <= 2 * MIN_DISTANCE
        },
        old(map).contains(from) && ring_fits(old(map).position_of(from), MIN_DISTANCE as int)
            && isolated(old(map).positions(), old(map).position_of(from), MIN_DISTANCE as int)
            ==> r is Some,
{
    let mut attempt: u32 = 0;
    while attempt < EXPAND_ATTEMPTS
        invariant
            old(map).wf(),
            old(map).next_id() < usize::MAX,
            map.wf(),
            RoomMap::unchanged(old(map), map),
            old(map).contains(from) && ring_fits(old(map).position_of(from), MIN_DISTANCE as int)
                && isolated(old(map).positions(), old(map).position_of(from), MIN_DISTANCE as int)
                ==> attempt == 0,
        decreases EXPAND_ATTEMPTS - attempt,
    {
        match map.add(from, ROOM_DATA, &mut random.random, EXPAND_TRIES) {
            Ok(id) => {
                return Some(id);
            },
            Err(_) => {},
        }
        attempt = attempt + 1;
    }
    None
}

/// Destroys room `id` on a player's request, unless it is the last room of
/// the level. Returns whether a room was removed.
pub fn destroy_room<T>(map: &mut RoomMap<T>, id: RoomId) -> (r: bool)
    requires
        old(map).wf(),
    ensures
        final(map).wf(),
        r == (old(map).contains(id) && old(map).ids().len() > 1),
        r ==> RoomMap::removed(old(map), final(map), id),
        !r ==> RoomMap::unchanged(old(map), final(map)),
{
    if map.len() <= 1 || map.get(id).is_none() {
        return false;
    }
    map.remove(id);
    true
}

/// A connection of `room` drawn uniformly, or `None` when it has none.
pub fn pick_connection<T>(room: &Room<T>, random: &mut RandomDeterministic) -> (r: Option<RoomId>)
    ensures
        r is None <==> room.connections@.len() == 0,
        r matches Some(c) ==> room.connections@.contains(c),
{
    let n = room.connections.len();
    if n == 0 {
        return None;
    }
    let i = draw_range(&mut random.random, 0, n as i128) as usize;
    Some(room.connections[i])
}

/// A unit standing in `current` may move to `target` when `target` is another
/// room that `current` is connected to.
pub fn can_move_to<T>(map: &RoomMap<T>, current: RoomId, target: RoomId) -> (r: bool)
    requires
        map.wf(),
    ensures
        r == (target != current && map.contains(current) && map.room(
            current,
        ).unwrap().connections@.contains(target)),
{
    if target == current {
        return false;
    }
    match map.get(current) {
        None => false,
        Some(room) => {
            let mut i: usize = 0;
            while i < room.connections.len()
                invariant
                    0 <= i <= room.connections@.len(),
                    target != current,
                    map.contains(current),
                    map.room(current) == Some(*room),
                    forall|k: int| 0 <= k < i ==> room.connections@[k] != target,
                decreases room.connections@.len() - i,
            {
                if room.connections[i] == target {
                    assert(room.connections@[i as int] == target);
                    return true;
                }
                i = i + 1;
            }
            false
        },
    }
}

/// Where units and pickups start.
pub struct SpawnDef {
    /// The player's room first, then the rooms of the two other units.
    pub players: Vec<RoomId>,
    /// Rooms that hold a pickup.
    pub points: Vec<RoomId>,
}

/// Start rooms, chosen by creation order so that a level replays the same:
/// units in the first, third and last rooms, pickups in the fourth to
/// seventh. `None` when the level has fewer than `SPAWN_ROOMS` rooms.
pub fn spawn_def<T>(map: &RoomMap<T>) -> (r: Option<SpawnDef>)
    requires
        map.wf(),
    ensures
        r is Some <==> map.ids().len() >= SPAWN_ROOMS,
        r matches Some(d) ==> d.players@ == seq![
            map.ids()[0],
            map.ids()[2],
            map.ids()[map.ids().len() - 1],
        ] && d.points@ == map.ids().subrange(3, 7),
{
    let ids = map.room_ids();
    let n = ids.len();
    if n < SPAWN_ROOMS {
        return None;
    }
    let mut players: Vec<RoomId> = Vec::new();
    players.push(ids[0]);
    players.push(ids[2]);
    players.push(ids[n - 1]);
    let mut points: Vec<RoomId> = Vec::new();
    let mut i: usize = 3;
    while i < 7
        invariant
            3 <= i <= 7,
            ids@ == map.ids(),
            ids@.len() >= 7,
            points@ == ids@.subrange(3, i as int),
        decreases 7 - i,
    {
        points.push(ids[i]);
        i = i + 1;
    }
    assert(players@ =~= seq![ids@[0], ids@[2], ids@[n - 1]]);
    Some(SpawnDef { players, points })
}

/// Of the pickups (each named by its room), in order, those that a unit
/// arriving in `arrived` leaves in place.
pub open spec fn remaining_pickups(pickups: Seq<RoomId>, arrived: RoomId) -> Seq<RoomId>
    decreases pickups.len(),
{
    if pickups.len() == 0 {
        Seq::empty()
    } else {
        let rest = remaining_pickups(pickups.drop_last(), arrived);
        if pickups.last() != arrived {
            rest.push(pickups.last())
        } else {
            rest
        }
    }
}

/// A unit arrives in `arrived` and collects every pickup there; returns the
/// pickups left, in order. The round is over when none is left.
pub fn collect_pickups(pickups: &Vec<RoomId>, arrived: RoomId) -> (r: Vec<RoomId>)
    ensures
        r@ == remaining_pickups(pickups@, arrived),
{
    let mut r: Vec<RoomId> = Vec::new();
    let mut i: usize = 0;
    while i < pickups.len()
        invariant
            0 <= i <= pickups@.len(),
            r@ == remaining_pickups(pickups@.take(i as int), arrived),
        decreases pickups@.len() - i,
    {
        assert(pickups@.take(i + 1).drop_last() == pickups@.take(i as int));
        if pickups[i] != arrived {
            r.push(pickups[i]);
        }
        i = i + 1;
    }
    assert(pickups@.take(i as int) == pickups@);
    r
}

} // verus!

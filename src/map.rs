//! The room graph: positioned rooms with directed connection lists, keyed by
//! ids that are never reused.

use crate::geometry::{cheb, crowded, distance_squared, is_clear, is_near, isolated, ring_fits, Position};
use crate::sampler::{around_outcome, get_position_around, search_outcome, MIN_DISTANCE};
use rand_chacha::ChaCha20Rng;
use vstd::prelude::*;

verus! {

/// Identifies a room for the lifetime of its graph.
#[derive(Clone, Copy, Debug, PartialEq, Eq, Structural, Hash, Default, PartialOrd, Ord)]
pub struct RoomId(pub usize);

/// A node of the graph. Its connections may repeat and may name rooms that
/// were removed since: `remove` leaves other rooms' lists as they are.
#[derive(Debug)]
pub struct Room<T> {
    pub connections: Vec<RoomId>,
    pub position: Position,
    pub data: T,
}

/// Why a room could not be added.
#[derive(Clone, Copy, Debug, PartialEq, Eq, Structural)]
pub enum ErrorAdd {
    /// The room to grow from is not in the graph.
    InexistantFromRoomId(RoomId),
    /// No free position was found around the room to grow from.
    NoPlaceFound(RoomId),
}

/// The rooms of a level, in the order they were created.
#[derive(Debug)]
pub struct RoomMap<T> {
    ids: Vec<RoomId>,
    rooms: Vec<Room<T>>,
    room_id_provider: RoomId,
}

/// Ids, among the first `n` rooms, of those other than `skip` that stand
/// closer than `radius` to `p`, in order.
pub open spec fn near_ids(
    ids: Seq<RoomId>,
    positions: Seq<Position>,
    skip: RoomId,
    p: Position,
    radius: int,
    n: int,
) -> Seq<RoomId>
    decreases n,
{
    if n <= 0 {
        Seq::empty()
    } else {
        let rest = near_ids(ids, positions, skip, p, radius, n - 1);
        if ids[n - 1] != skip && is_near(positions[n - 1], p, radius) {
            rest.push(ids[n - 1])
        } else {
            rest
        }
    }
}

/// `near_ids` reads only the first `n` entries.
pub proof fn lemma_near_ids_prefix(
    ids1: Seq<RoomId>,
    pos1: Seq<Position>,
    ids2: Seq<RoomId>,
    pos2: Seq<Position>,
    skip: RoomId,
    p: Position,
    radius: int,
    n: int,
)
    requires
        0 <= n <= ids1.len(),
        n <= ids2.len(),
        n <= pos1.len(),
        n <= pos2.len(),
        ids1.take(n) == ids2.take(n),
        pos1.take(n) == pos2.take(n),
    ensures
        near_ids(ids1, pos1, skip, p, radius, n) == near_ids(ids2, pos2, skip, p, radius, n),
    decreases n,
{
    if n > 0 {
        assert(ids1.take(n - 1) =~= ids1.take(n).take(n - 1));
        assert(ids2.take(n - 1) =~= ids2.take(n).take(n - 1));
        assert(pos1.take(n - 1) =~= pos1.take(n).take(n - 1));
        assert(pos2.take(n - 1) =~= pos2.take(n).take(n - 1));
        assert(ids1[n - 1] == ids1.take(n)[n - 1]);
        assert(ids2[n - 1] == ids2.take(n)[n - 1]);
        assert(pos1[n - 1] == pos1.take(n)[n - 1]);
        assert(pos2[n - 1] == pos2.take(n)[n - 1]);
        lemma_near_ids_prefix(ids1, pos1, ids2, pos2, skip, p, radius, n - 1);
    }
}

/// `after` is `before` with `to` appended to its connections.
pub open spec fn pushed_connection<T>(before: Room<T>, after: Room<T>, to: RoomId) -> bool {
    &&& after.connections@ == before.connections@.push(to)
    &&& after.position == before.position
    &&& after.data == before.data
}

/// `after` is `before` where the room at index `k` got `to` appended to its
/// connections, and nothing else changed.
pub open spec fn connected_at<T>(
    before: Seq<Room<T>>,
    after: Seq<Room<T>>,
    k: int,
    to: RoomId,
) -> bool {
    &&& 0 <= k < before.len()
    &&& after == before.update(k, after[k])
    &&& pushed_connection(before[k], after[k], to)
}

impl<T> RoomMap<T> {
    /// Ids of the rooms, in creation order.
    pub closed spec fn ids(&self) -> Seq<RoomId> {
        self.ids@
    }

    /// The rooms, index for index with `ids()`.
    pub closed spec fn rooms(&self) -> Seq<Room<T>> {
        self.rooms@
    }

    /// The id the next created room receives.
    pub closed spec fn next_id(&self) -> nat {
        self.room_id_provider.0 as nat
    }

    /// Ids strictly increase in creation order and all lie below the next id,
    /// so no id is ever given twice.
    pub open spec fn wf(&self) -> bool {
        &&& self.ids().len() == self.rooms().len()
        &&& forall|i: int, j: int|
            0 <= i < j < self.ids().len() ==> (#[trigger] self.ids()[i]).0 < (#[trigger] self.ids()[j]).0
        &&& forall|i: int| 0 <= i < self.ids().len() ==> (#[trigger] self.ids()[i]).0 < self.next_id()
    }

    pub open spec fn contains(&self, id: RoomId) -> bool {
        self.ids().contains(id)
    }

    /// Index of a present room.
    pub open spec fn index_of(&self, id: RoomId) -> int {
        self.ids().index_of(id)
    }

    /// The positions of all rooms, in creation order.
    pub open spec fn positions(&self) -> Seq<Position> {
        self.rooms().map_values(|r: Room<T>| r.position)
    }

    /// The room `id`, if present.
    pub open spec fn room(&self, id: RoomId) -> Option<Room<T>> {
        if self.contains(id) {
            Some(self.rooms()[self.index_of(id)])
        } else {
            None
        }
    }

    /// Where the room that `r` reports as added stands, if it reports one.
    pub open spec fn placement(&self, r: Result<RoomId, ErrorAdd>) -> Option<Position> {
        match r {
            Ok(_) => Some(self.rooms().last().position),
            Err(_) => None,
        }
    }

    /// Position of a present room.
    pub open spec fn position_of(&self, id: RoomId) -> Position {
        self.rooms()[self.index_of(id)].position
    }

    /// The two graphs hold the same rooms and the same next id.
    pub open spec fn unchanged(before: &RoomMap<T>, after: &RoomMap<T>) -> bool {
        &&& after.ids() == before.ids()
        &&& after.rooms() == before.rooms()
        &&& after.next_id() == before.next_id()
    }

    /// `after` is `before` without room `id`; the other rooms keep their
    /// connection lists, which may still name `id`.
    pub open spec fn removed(before: &RoomMap<T>, after: &RoomMap<T>, id: RoomId) -> bool {
        &&& after.ids() == before.ids().remove(before.index_of(id))
        &&& after.rooms() == before.rooms().remove(before.index_of(id))
        &&& after.next_id() == before.next_id()
    }

    /// `after` is `before` with one room appended: it has the next id, sits at
    /// `position`, holds `data` and is connected to `from`, which in turn got
    /// the new room appended to its own connections.
    pub open spec fn grown_from(
        before: &RoomMap<T>,
        after: &RoomMap<T>,
        from: RoomId,
        data: T,
        position: Position,
    ) -> bool {
        let new_id = RoomId(before.next_id() as usize);
        let n = before.rooms().len();
        &&& after.ids() == before.ids().push(new_id)
        &&& after.next_id() == before.next_id() + 1
        &&& after.rooms().len() == n + 1
        &&& connected_at(before.rooms(), after.rooms().take(n as int), before.index_of(from), new_id)
        &&& after.rooms()[n as int].connections@ == seq![from]
        &&& after.rooms()[n as int].position == position
        &&& after.rooms()[n as int].data == data
    }

    /// The index of a present id is where it stands.
    pub proof fn lemma_index_of(&self, i: int)
        requires
            self.wf(),
            0 <= i < self.ids().len(),
        ensures
            self.contains(self.ids()[i]),
            self.index_of(self.ids()[i]) == i,
    {
        let id = self.ids()[i];
        assert(self.ids()[i] == id);
        let j = self.index_of(id);
        assert(0 <= j < self.ids().len() && self.ids()[j] == id);
        if j < i {
            assert(self.ids()[j].0 < self.ids()[i].0);
        } else if i < j {
            assert(self.ids()[i].0 < self.ids()[j].0);
        }
    }

    /// An empty graph.
    pub fn new() -> (r: Self)
        ensures
            r.wf(),
            r.ids() == Seq::<RoomId>::empty(),
            r.rooms() == Seq::<Room<T>>::empty(),
            r.next_id() == 0,
    {
        RoomMap { ids: Vec::new(), rooms: Vec::new(), room_id_provider: RoomId(0) }
    }

    /// Index of `id` among the rooms, if present.
    fn find(&self, id: RoomId) -> (r: Option<usize>)
        requires
            self.wf(),
        ensures
            r matches Some(i) ==> i < self.ids().len() && self.ids()[i as int] == id
                && self.index_of(id) == i,
            r is Some <==> self.contains(id),
    {
        let mut i: usize = 0;
        while i < self.ids.len()
            invariant
                self.wf(),
                0 <= i <= self.ids@.len(),
                forall|k: int| 0 <= k < i ==> self.ids@[k] != id,
            decreases self.ids@.len() - i,
        {
            if self.ids[i] == id {
                proof {
                    self.lemma_index_of(i as int);
                }
                return Some(i);
            }
            i = i + 1;
        }
        None
    }

    /// Inserts a room with the given connections (not checked against the
    /// graph) under the next unused id, and returns that id.
    pub fn create_raw(&mut self, data: T, position: Position, connections: Vec<RoomId>) -> (r:
        RoomId)
        requires
            old(self).wf(),
            old(self).next_id() < usize::MAX,
        ensures
            final(self).wf(),
            r == RoomId(old(self).next_id() as usize),
            final(self).ids() == old(self).ids().push(r),
            final(self).rooms() == old(self).rooms().push(
                (Room { connections: connections, position: position, data: data }),
            ),
            final(self).next_id() == old(self).next_id() + 1,
    {
        let room_id_to_create = self.room_id_provider;
        let new_room = Room { connections, position, data };
        self.ids.push(room_id_to_create);
        self.rooms.push(new_room);
        self.room_id_provider = RoomId(self.room_id_provider.0 + 1);
        room_id_to_create
    }

    /// Appends `to` to the connections of `from`, in that direction only;
    /// `to` itself is not checked. `add_at`, `add` and `connect_nearby` make
    /// their connections in both directions.
    pub fn connect(&mut self, from: RoomId, to: RoomId) -> (r: Result<(), ErrorAdd>)
        requires
            old(self).wf(),
        ensures
            final(self).wf(),
            final(self).ids() == old(self).ids(),
            final(self).next_id() == old(self).next_id(),
            old(self).contains(from) ==> r == Ok::<(), ErrorAdd>(()) && connected_at(
                old(self).rooms(),
                final(self).rooms(),
                old(self).index_of(from),
                to,
            ),
            !old(self).contains(from) ==> r == Err::<(), ErrorAdd>(ErrorAdd::InexistantFromRoomId(from))
                && final(self).rooms() == old(self).rooms(),
    {
        match self.find(from) {
            Some(i) => {
                let mut room = self.rooms.remove(i);
                room.connections.push(to);
                self.rooms.insert(i, room);
                assert(self.rooms@ == old(self).rooms@.update(i as int, self.rooms@[i as int]));
                Ok(())
            },
            None => Err(ErrorAdd::InexistantFromRoomId(from)),
        }
    }

    /// Deletes the room `id` if present. Other rooms keep any connection to
    /// it, so their lists may name a room that no longer exists.
    pub fn remove(&mut self, id: RoomId)
        requires
            old(self).wf(),
        ensures
            final(self).wf(),
            final(self).next_id() == old(self).next_id(),
            old(self).contains(id) ==> Self::removed(old(self), final(self), id),
            !old(self).contains(id) ==> Self::unchanged(old(self), final(self)),
    {
        match self.find(id) {
            Some(i) => {
                self.ids.remove(i);
                self.rooms.remove(i);
                assert forall|a: int, b: int|
                    0 <= a < b < self.ids@.len() implies (#[trigger] self.ids@[a]).0
                    < (#[trigger] self.ids@[b]).0 by {
                    let oa = if a < i { a } else { a + 1 };
                    let ob = if b < i { b } else { b + 1 };
                    assert(self.ids@[a] == old(self).ids@[oa]);
                    assert(self.ids@[b] == old(self).ids@[ob]);
                }
                assert forall|a: int| 0 <= a < self.ids@.len() implies (#[trigger] self.ids@[a]).0
                    < self.room_id_provider.0 by {
                    let oa = if a < i { a } else { a + 1 };
                    assert(self.ids@[a] == old(self).ids@[oa]);
                }
            },
            None => {},
        }
    }

    /// Positions of all rooms, in creation order.
    fn get_positions(&self) -> (r: Vec<Position>)
        requires
            self.wf(),
        ensures
            r@ == self.positions(),
    {
        let mut r: Vec<Position> = Vec::new();
        let mut i: usize = 0;
        while i < self.rooms.len()
            invariant
                0 <= i <= self.rooms@.len(),
                r@ == self.rooms@.take(i as int).map_values(|room: Room<T>| room.position),
            decreases self.rooms@.len() - i,
        {
            r.push(self.rooms[i].position);
            i = i + 1;
            assert(self.rooms@.take(i as int).drop_last() == self.rooms@.take(i - 1));
        }
        assert(self.rooms@.take(i as int) == self.rooms@);
        r
    }

    /// Number of rooms.
    pub fn len(&self) -> (r: usize)
        requires
            self.wf(),
        ensures
            r == self.ids().len(),
    {
        self.ids.len()
    }

    /// Whether the graph has no room.
    pub fn is_empty(&self) -> (r: bool)
        requires
            self.wf(),
        ensures
            r == (self.ids().len() == 0),
    {
        self.len() == 0
    }

    /// The room `id`, if present.
    pub fn get(&self, id: RoomId) -> (r: Option<&Room<T>>)
        requires
            self.wf(),
        ensures
            r matches Some(room) ==> self.room(id) == Some(*room),
            r is None <==> self.room(id) is None,
    {
        match self.find(id) {
            Some(i) => Some(&self.rooms[i]),
            None => None,
        }
    }

    /// Every room with its id, in creation order.
    pub fn iter(&self) -> (r: Vec<(RoomId, &Room<T>)>)
        requires
            self.wf(),
        ensures
            r@.len() == self.ids().len(),
            forall|i: int|
                0 <= i < r@.len() ==> (#[trigger] r@[i]).0 == self.ids()[i] && *r@[i].1
                    == self.rooms()[i],
    {
        let mut r: Vec<(RoomId, &Room<T>)> = Vec::new();
        let mut i: usize = 0;
        while i < self.rooms.len()
            invariant
                self.wf(),
                0 <= i <= self.rooms@.len(),
                r@.len() == i,
                forall|k: int|
                    0 <= k < i ==> (#[trigger] r@[k]).0 == self.ids@[k] && *r@[k].1
                        == self.rooms@[k],
            decreases self.rooms@.len() - i,
        {
            r.push((self.ids[i], &self.rooms[i]));
            i = i + 1;
        }
        r
    }

    /// The ids, read-only, beside the rooms, which may be changed in place;
    /// the two slices match index for index. A slice keeps its length, so the
    /// graph stays well formed.
    pub fn iter_mut(&mut self) -> (r: (&[RoomId], &mut [Room<T>]))
        requires
            old(self).wf(),
        ensures
            r.0@ == old(self).ids(),
            r.1@ == old(self).rooms(),
            final(self).ids() == old(self).ids(),
            final(self).next_id() == old(self).next_id(),
            final(self).rooms() == final(r.1)@,
            final(self).rooms().len() == old(self).rooms().len() ==> final(self).wf(),
    {
        (self.ids.as_slice(), self.rooms.as_mut_slice())
    }

    /// Places a new room at `position`, the answer of a placement search
    /// around `from`, and connects the two rooms both ways.
    pub fn add_at(&mut self, from: RoomId, data: T, position: Option<Position>) -> (r: Result<
        RoomId,
        ErrorAdd,
    >)
        requires
            old(self).wf(),
            old(self).next_id() < usize::MAX,
        ensures
            final(self).wf(),
            !old(self).contains(from) ==> r == Err::<RoomId, ErrorAdd>(
                ErrorAdd::InexistantFromRoomId(from),
            ),
            old(self).contains(from) && position is None ==> r == Err::<RoomId, ErrorAdd>(
                ErrorAdd::NoPlaceFound(from),
            ),
            r is Err ==> Self::unchanged(old(self), final(self)),
            position matches Some(p) ==> (old(self).contains(from) ==> r == Ok::<RoomId, ErrorAdd>(
                RoomId(old(self).next_id() as usize),
            ) && Self::grown_from(old(self), final(self), from, data, p)),
    {
        let k = match self.find(from) {
            Some(k) => k,
            None => {
                return Err(ErrorAdd::InexistantFromRoomId(from));
            },
        };
        match position {
            None => Err(ErrorAdd::NoPlaceFound(from)),
            Some(p) => {
                let mut connections: Vec<RoomId> = Vec::new();
                connections.push(from);
                let room_id = self.create_raw(data, p, connections);
                let ghost mid = *self;
                proof {
                    mid.lemma_index_of(k as int);
                }
                let _ = self.connect(from, room_id);
                let ghost n = old(self).rooms@.len();
                assert(self.rooms@.take(n as int) == old(self).rooms@.update(
                    k as int,
                    self.rooms@[k as int],
                ));
                Ok(room_id)
            },
        }
    }

    /// Grows the graph by one room near `from`: searches, with at most
    /// `nb_tries` random candidates, a position at the game's minimum
    /// separation from every room and at Chebyshev distance one to two times
    /// that separation from `from`, then places the room there, connected both
    /// ways with `from`. Failure leaves the graph as it was. The search cannot
    /// fail when the ring around `from` holds no other room (as in a graph of
    /// one room) and `nb_tries` is positive.
    pub fn add(&mut self, from: RoomId, data: T, rng: &mut ChaCha20Rng, nb_tries: u32) -> (r:
        Result<RoomId, ErrorAdd>)
        requires
            old(self).wf(),
            old(self).next_id() < usize::MAX,
        ensures
            final(self).wf(),
            !old(self).contains(from) ==> r == Err::<RoomId, ErrorAdd>(
                ErrorAdd::InexistantFromRoomId(from),
            ),
            old(self).contains(from) ==> (r is Ok || r == Err::<RoomId, ErrorAdd>(
                ErrorAdd::NoPlaceFound(from),
            )),
            r is Err ==> Self::unchanged(old(self), final(self)),
            r matches Ok(id) ==> {
                let p = final(self).rooms().last().position;
                &&& id == RoomId(old(self).next_id() as usize)
                &&& !old(self).contains(id)
                &&& Self::grown_from(old(self), final(self), from, data, p)
                &&& is_clear(old(self).positions(), p, MIN_DISTANCE as int)
                &&& MIN_DISTANCE <= cheb(p, old(self).position_of(from)) <= 2 * MIN_DISTANCE
            },
            old(self).contains(from) && nb_tries > 0 && ring_fits(
                old(self).position_of(from),
                MIN_DISTANCE as int,
            ) && isolated(old(self).positions(), old(self).position_of(from), MIN_DISTANCE as int)
                ==> r is Ok,
            old(self).contains(from) && crowded(
                old(self).positions(),
                old(self).position_of(from),
                MIN_DISTANCE as int,
            ) ==> r == Err::<RoomId, ErrorAdd>(ErrorAdd::NoPlaceFound(from)),
            !old(self).contains(from) ==> *final(rng) == *old(rng),
            old(self).contains(from) ==> exists|offsets: Seq<(int, int)>|
                #[trigger] search_outcome(
                    old(self).positions(),
                    old(self).position_of(from),
                    MIN_DISTANCE as int,
                    nb_tries as int,
                    offsets,
                    final(self).placement(r),
                ),
    {
        let k = match self.find(from) {
            Some(k) => k,
            None => {
                return Err(ErrorAdd::InexistantFromRoomId(from));
            },
        };
        let positions = self.get_positions();
        let ref_point = self.rooms[k].position;
        let mut ref_points: Vec<Position> = Vec::new();
        ref_points.push(ref_point);
        proof {
            if nb_tries > 0 && ring_fits(ref_point, MIN_DISTANCE as int) && isolated(
                positions@,
                ref_point,
                MIN_DISTANCE as int,
            ) {
                assert(ring_fits(ref_points@[0], MIN_DISTANCE as int));
            }
            if crowded(positions@, ref_point, MIN_DISTANCE as int) {
                assert forall|j: int| 0 <= j < ref_points@.len() implies crowded(
                    positions@,
                    #[trigger] ref_points@[j],
                    MIN_DISTANCE as int,
                ) by {
                    assert(ref_points@[j] == ref_point);
                }
            }
        }
        let ghost occupied = positions@;
        let pos = get_position_around(nb_tries, positions, ref_points, rng);
        let ghost draws = choose|draws: Seq<Seq<(int, int)>>|
            #[trigger] around_outcome(
                occupied,
                seq![ref_point],
                MIN_DISTANCE as int,
                nb_tries as int,
                draws,
                pos,
            );
        assert(ref_points@ == seq![ref_point]);
        assert(search_outcome(
            occupied,
            ref_point,
            MIN_DISTANCE as int,
            nb_tries as int,
            draws[0],
            pos,
        ));
        let r = self.add_at(from, data, pos);
        proof {
            if pos is Some {
                let n = old(self).rooms().len() as int;
                assert(self.rooms().last() == self.rooms()[n]);
            }
            assert(self.placement(r) == pos);
            assert(occupied == old(self).positions());
            assert(ref_point == old(self).position_of(from));
            assert(search_outcome(
                old(self).positions(),
                old(self).position_of(from),
                MIN_DISTANCE as int,
                nb_tries as int,
                draws[0],
                self.placement(r),
            ));
        }
        r
    }

    /// Ids of all rooms, in creation order.
    pub fn room_ids(&self) -> (r: Vec<RoomId>)
        requires
            self.wf(),
        ensures
            r@ == self.ids(),
    {
        self.ids.clone()
    }

    /// Connects room `id` both ways with every other room that stands closer
    /// than `radius` to it: each such room gets `id` appended to its
    /// connections, and `id` gets their ids appended, in creation order.
    pub fn connect_nearby(&mut self, id: RoomId, radius: u32)
        requires
            old(self).wf(),
            old(self).contains(id),
        ensures
            final(self).wf(),
            final(self).ids() == old(self).ids(),
            final(self).next_id() == old(self).next_id(),
            final(self).rooms().len() == old(self).rooms().len(),
            ({
                let k = old(self).index_of(id);
                let p = old(self).position_of(id);
                let near = near_ids(
                    old(self).ids(),
                    old(self).positions(),
                    id,
                    p,
                    radius as int,
                    old(self).ids().len() as int,
                );
                &&& final(self).rooms()[k].connections@ == old(self).rooms()[k].connections@ + near
                &&& final(self).rooms()[k].position == old(self).rooms()[k].position
                &&& final(self).rooms()[k].data == old(self).rooms()[k].data
                &&& forall|j: int|
                    0 <= j < old(self).rooms().len() && j != k ==> if is_near(
                        #[trigger] old(self).positions()[j],
                        p,
                        radius as int,
                    ) {
                        pushed_connection(old(self).rooms()[j], final(self).rooms()[j], id)
                    } else {
                        final(self).rooms()[j] == old(self).rooms()[j]
                    }
            }),
    {
        let k = self.find(id).unwrap();
        let p = self.rooms[k].position;
        let d: i128 = radius as i128;
        assert(d * d <= 0x1_0000_0000_0000_0000) by (nonlinear_arith)
            requires
                0 <= d <= 0x1_0000_0000,
        ;
        let limit: i128 = d * d;
        let ghost n = self.ids@.len() as int;
        let ghost positions = old(self).positions();
        let mut added: Vec<RoomId> = Vec::new();
        let mut j: usize = 0;
        while j < self.rooms.len()
            invariant
                self.wf(),
                self.ids@ == old(self).ids@,
                self.room_id_provider == old(self).room_id_provider,
                self.rooms@.len() == n,
                old(self).rooms@.len() == n,
                old(self).ids@.len() == n,
                0 <= j <= n,
                k < n,
                self.ids@[k as int] == id,
                old(self).index_of(id) == k,
                p == old(self).rooms@[k as int].position,
                positions == old(self).positions(),
                limit == (radius as int) * (radius as int),
                added@ == near_ids(old(self).ids(), positions, id, p, radius as int, j as int),
                self.rooms@[k as int] == old(self).rooms@[k as int],
                forall|i: int|
                    j <= i < n ==> #[trigger] self.rooms@[i] == old(self).rooms@[i],
                forall|i: int|
                    0 <= i < j && i != k ==> if is_near(#[trigger] positions[i], p, radius as int) {
                        pushed_connection(old(self).rooms@[i], self.rooms@[i], id)
                    } else {
                        self.rooms@[i] == old(self).rooms@[i]
                    },
            decreases n - j,
        {
            if self.ids[j] != id && distance_squared(self.rooms[j].position, p) < limit {
                assert(j != k);
                let mut room = self.rooms.remove(j);
                room.connections.push(id);
                self.rooms.insert(j, room);
                added.push(self.ids[j]);
            }
            proof {
                if self.ids@[j as int] == id {
                    assert(j == k) by {
                        if (j as int) < (k as int) {
                            assert(self.ids@[j as int].0 < self.ids@[k as int].0);
                        } else if (k as int) < (j as int) {
                            assert(self.ids@[k as int].0 < self.ids@[j as int].0);
                        }
                    }
                }
                assert(positions[j as int] == old(self).rooms@[j as int].position);
            }
            j = j + 1;
        }
        let mut room = self.rooms.remove(k);
        room.connections.append(&mut added);
        self.rooms.insert(k, room);
    }
}

/// In a graph of one room whose ring of free space fits the coordinate
/// range, that room meets the condition under which `add` from it cannot fail
/// (given a positive attempt budget); the new id is then unlike every other.
pub proof fn lemma_lone_room_can_grow<T>(map: &RoomMap<T>)
    requires
        map.wf(),
        map.ids().len() == 1,
        ring_fits(map.rooms()[0].position, MIN_DISTANCE as int),
    ensures
        map.contains(map.ids()[0]),
        ring_fits(map.position_of(map.ids()[0]), MIN_DISTANCE as int),
        isolated(map.positions(), map.position_of(map.ids()[0]), MIN_DISTANCE as int),
{
    map.lemma_index_of(0);
}

proof fn lemma_growth_prefix<T>(
    maps: Seq<RoomMap<T>>,
    froms: Seq<RoomId>,
    data: Seq<T>,
    positions: Seq<Position>,
    j: int,
)
    requires
        0 <= j < maps.len(),
        froms.len() + 1 == maps.len(),
        data.len() + 1 == maps.len(),
        positions.len() + 1 == maps.len(),
        maps[0].wf(),
        maps[0].ids().len() == 1,
        forall|k: int|
            0 <= k < maps.len() - 1 ==> RoomMap::grown_from(
                &#[trigger] maps[k],
                &maps[k + 1],
                froms[k],
                data[k],
                positions[k],
            ),
    ensures
        maps[j].ids().len() == j + 1,
        maps[j].rooms().len() == j + 1,
        j >= 1 ==> forall|i: int|
            0 <= i < maps[j].rooms().len() ==> (#[trigger] maps[j].rooms()[i]).connections@.len() > 0,
    decreases j,
{
    if j > 0 {
        lemma_growth_prefix(maps, froms, data, positions, j - 1);
        let before = maps[j - 1];
        let after = maps[j];
        assert(RoomMap::grown_from(&maps[j - 1], &maps[j], froms[j - 1], data[j - 1], positions[j - 1]));
        let n = before.rooms().len() as int;
        let k = before.index_of(froms[j - 1]);
        assert forall|i: int| 0 <= i < after.rooms().len() implies (
        #[trigger] after.rooms()[i]).connections@.len() > 0 by {
            if i < n {
                assert(after.rooms()[i] == after.rooms().take(n)[i]);
                if i == k {
                    assert(after.rooms().take(n)[k].connections@ == before.rooms()[k].connections@.push(
                        RoomId(before.next_id() as usize),
                    ));
                } else {
                    assert(after.rooms().take(n)[i] == before.rooms()[i]);
                    assert(j - 1 >= 1);
                }
            }
        }
    }
}

/// Growing a graph of one room by successful `add` calls, each step being
/// `grown_from`: after N >= 1 steps the graph has exactly N + 1 rooms and
/// every room has at least one connection.
pub proof fn lemma_growth_connects_every_room<T>(
    maps: Seq<RoomMap<T>>,
    froms: Seq<RoomId>,
    data: Seq<T>,
    positions: Seq<Position>,
)
    requires
        maps.len() >= 2,
        froms.len() + 1 == maps.len(),
        data.len() + 1 == maps.len(),
        positions.len() + 1 == maps.len(),
        maps[0].wf(),
        maps[0].ids().len() == 1,
        forall|k: int|
            0 <= k < maps.len() - 1 ==> RoomMap::grown_from(
                &#[trigger] maps[k],
                &maps[k + 1],
                froms[k],
                data[k],
                positions[k],
            ),
    ensures
        maps.last().ids().len() == maps.len(),
        maps.last().rooms().len() == maps.len(),
        forall|i: int|
            0 <= i < maps.last().rooms().len() ==> (#[trigger] maps.last().rooms()[i]).connections@.len()
                > 0,
{
    lemma_growth_prefix(maps, froms, data, positions, maps.len() - 1);
}

/// The connection list the seed room has after `j` successful adds from it.
pub open spec fn star_ids(base: nat, j: nat) -> Seq<RoomId> {
    Seq::new(j, |k: int| RoomId((base + k) as usize))
}

proof fn lemma_star_prefix<T>(maps: Seq<RoomMap<T>>, data: Seq<T>, positions: Seq<Position>, j: int)
    requires
        0 <= j < maps.len(),
        data.len() + 1 == maps.len(),
        positions.len() + 1 == maps.len(),
        maps[0].wf(),
        maps[0].ids().len() == 1,
        maps[0].rooms()[0].connections@.len() == 0,
        forall|k: int|
            0 <= k < maps.len() - 1 ==> RoomMap::grown_from(
                &#[trigger] maps[k],
                &maps[k + 1],
                maps[0].ids()[0],
                data[k],
                positions[k],
            ),
    ensures
        maps[j].ids().len() == j + 1,
        maps[j].rooms().len() == j + 1,
        maps[j].next_id() == maps[0].next_id() + j,
        maps[j].ids()[0] == maps[0].ids()[0],
        maps[j].rooms()[0].connections@ == star_ids(maps[0].next_id(), j as nat),
        forall|i: int|
            1 <= i <= j ==> #[trigger] maps[j].ids()[i] == RoomId((maps[0].next_id() + i - 1) as usize),
        forall|i: int|
            1 <= i <= j ==> (#[trigger] maps[j].rooms()[i]).connections@ == seq![maps[0].ids()[0]],
    decreases j,
{
    let s = maps[0].ids()[0];
    let base = maps[0].next_id();
    if j == 0 {
        assert(maps[0].rooms()[0].connections@ =~= star_ids(base, 0));
    } else {
        lemma_star_prefix(maps, data, positions, j - 1);
        let before = maps[j - 1];
        let after = maps[j];
        assert(RoomMap::grown_from(&maps[j - 1], &maps[j], s, data[j - 1], positions[j - 1]));
        assert(before.ids()[0] == s);
        let w = before.index_of(s);
        if w != 0 {
            assert(before.ids()[w].0 >= base);
            assert(s.0 < base);
        }
        let new_id = RoomId(before.next_id() as usize);
        assert(after.rooms().take(j)[0] == after.rooms()[0]);
        assert(after.rooms()[0].connections@ =~= star_ids(base, j as nat)) by {
            assert(star_ids(base, j as nat) =~= star_ids(base, (j - 1) as nat).push(new_id));
        }
        assert forall|i: int| 1 <= i <= j implies #[trigger] after.ids()[i] == RoomId(
            (base + i - 1) as usize,
        ) && after.rooms()[i].connections@ == seq![s] by {
            if i < j {
                assert(after.rooms().take(j)[i] == after.rooms()[i]);
                assert(after.rooms()[i] == before.rooms()[i]);
                assert(after.ids()[i] == before.ids()[i]);
            } else {
                assert(after.ids()[i] == new_id);
                assert(after.rooms()[i].connections@ == seq![s]);
            }
        }
        assert forall|i: int| 1 <= i <= j implies (#[trigger] after.rooms()[i]).connections@
            == seq![s] by {
            assert(after.ids()[i] == RoomId((base + i - 1) as usize));
        }
    }
}

/// Growing a graph of one unconnected room `s` by successful `add` calls
/// from `s` itself, each step being `grown_from`: after N steps the graph has
/// N + 1 rooms, the new rooms carry the next N ids in order, `s` is connected
/// to exactly those ids in that order, and each new room is connected to `s`
/// alone.
pub proof fn lemma_star_growth<T>(maps: Seq<RoomMap<T>>, data: Seq<T>, positions: Seq<Position>)
    requires
        maps.len() >= 1,
        data.len() + 1 == maps.len(),
        positions.len() + 1 == maps.len(),
        maps[0].wf(),
        maps[0].ids().len() == 1,
        maps[0].rooms()[0].connections@.len() == 0,
        forall|k: int|
            0 <= k < maps.len() - 1 ==> RoomMap::grown_from(
                &#[trigger] maps[k],
                &maps[k + 1],
                maps[0].ids()[0],
                data[k],
                positions[k],
            ),
    ensures
        maps.last().ids().len() == maps.len(),
        maps.last().rooms()[0].connections@ == star_ids(
            maps[0].next_id(),
            (maps.len() - 1) as nat,
        ),
        forall|i: int|
            1 <= i < maps.len() ==> #[trigger] maps.last().ids()[i] == RoomId(
                (maps[0].next_id() + i - 1) as usize,
            ),
        forall|i: int|
            1 <= i < maps.len() ==> (#[trigger] maps.last().rooms()[i]).connections@ == seq![
                maps[0].ids()[0],
            ],
{
    lemma_star_prefix(maps, data, positions, maps.len() - 1);
    assert(maps.last() == maps[maps.len() - 1]);
}

/// Removing a present room leaves one room fewer and its id gone, while every
/// other room keeps its connection list as it was, possibly still naming the
/// removed id.
pub proof fn lemma_remove_forgets_room<T>(before: &RoomMap<T>, after: &RoomMap<T>, id: RoomId)
    requires
        before.wf(),
        before.contains(id),
        RoomMap::removed(before, after, id),
    ensures
        after.wf(),
        after.ids().len() == before.ids().len() - 1,
        !after.contains(id),
        forall|i: int|
            0 <= i < after.rooms().len() ==> (#[trigger] after.rooms()[i]).connections@
                == before.rooms()[if i < before.index_of(id) {
                i
            } else {
                i + 1
            }].connections@,
{
    let k = before.index_of(id);
    let w = choose|w: int| 0 <= w < before.ids().len() && before.ids()[w] == id;
    before.lemma_index_of(w);
    assert forall|a: int, b: int|
        0 <= a < b < after.ids().len() implies (#[trigger] after.ids()[a]).0 < (
        #[trigger] after.ids()[b]).0 by {
        let oa = if a < k { a } else { a + 1 };
        let ob = if b < k { b } else { b + 1 };
        assert(after.ids()[a] == before.ids()[oa]);
        assert(after.ids()[b] == before.ids()[ob]);
    }
    assert forall|a: int| 0 <= a < after.ids().len() implies (#[trigger] after.ids()[a]).0
        < after.next_id() by {
        let oa = if a < k { a } else { a + 1 };
        assert(after.ids()[a] == before.ids()[oa]);
    }
    if after.contains(id) {
        let a = choose|a: int| 0 <= a < after.ids().len() && after.ids()[a] == id;
        let oa = if a < k { a } else { a + 1 };
        assert(after.ids()[a] == before.ids()[oa]);
        if oa < k {
            assert(before.ids()[oa].0 < before.ids()[k].0);
        } else {
            assert(before.ids()[k].0 < before.ids()[oa].0);
        }
    }
}

impl<T> Default for RoomMap<T> {
    /// An empty graph.
    fn default() -> (r: Self)
        ensures
            r.wf(),
            r.ids() == Seq::<RoomId>::empty(),
            r.next_id() == 0,
    {
        Self::new()
    }
}

} // verus!

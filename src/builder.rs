//! Growing a level room by room: frontier selection biased away from rooms
//! that recently failed to yield a placement, then a dense wiring of each new
//! room to its close neighbours.

use crate::geometry::{cheb, is_clear, is_near, ring_fits, spaced, Position};
use crate::map::{lemma_near_ids_prefix, near_ids, pushed_connection, RoomId, RoomMap};
use crate::random::{draw_range, RandomDeterministic};
use crate::sampler::MIN_DISTANCE;
use vstd::prelude::*;

verus! {

/// Failures after which a room stops being picked to grow from.
pub const CLUTTER_LIMIT: u8 = 1;

/// Rooms tried as a growth origin in one step.
pub const STEP_ATTEMPTS: u32 = 5;

/// Placement attempts given to each origin in one step.
pub const ADD_TRIES: u32 = 10;

/// Rooms closer than this to a new room get connected with it.
pub const NEIGHBOUR_RADIUS: u32 = 50;

/// Half-side of the square where the first room of a level is placed.
pub const SEED_SPREAD: i64 = 30;

/// Payload of the first room of a level.
pub const SEED_DATA: i32 = 0;

/// Payload of every grown room.
pub const ROOM_DATA: i32 = 1;

/// Growth steps that make a level.
pub const LEVEL_STEPS: u32 = 25;

/// Per-room failure counts, which steer frontier selection.
pub struct MapBuilder {
    clutters: Vec<(RoomId, u8)>,
}

impl MapBuilder {
    /// The recorded counts; rooms never recorded count zero.
    pub closed spec fn entries(&self) -> Seq<(RoomId, u8)> {
        self.clutters@
    }

    /// Each room is recorded at most once.
    pub open spec fn wf(&self) -> bool {
        forall|i: int, j: int|
            0 <= i < j < self.entries().len() ==> (#[trigger] self.entries()[i]).0 != (
            #[trigger] self.entries()[j]).0
    }

    /// Failures recorded for `id`.
    pub open spec fn tries_of(&self, id: RoomId) -> nat {
        if exists|i: int| 0 <= i < self.entries().len() && #[trigger] self.entries()[i].0 == id {
            self.entries()[choose|i: int|
                0 <= i < self.entries().len() && #[trigger] self.entries()[i].0 == id].1 as nat
        } else {
            0
        }
    }

    /// Of `ids`, in order, those with at most `CLUTTER_LIMIT` failures.
    pub open spec fn eligible(&self, ids: Seq<RoomId>) -> Seq<RoomId>
        decreases ids.len(),
    {
        if ids.len() == 0 {
            Seq::empty()
        } else {
            let rest = self.eligible(ids.drop_last());
            if self.tries_of(ids.last()) <= CLUTTER_LIMIT {
                rest.push(ids.last())
            } else {
                rest
            }
        }
    }

    proof fn lemma_tries_at(&self, i: int)
        requires
            self.wf(),
            0 <= i < self.entries().len(),
        ensures
            self.tries_of(self.entries()[i].0) == self.entries()[i].1,
    {
        let id = self.entries()[i].0;
        assert(self.entries()[i].0 == id);
        let j = choose|j: int| 0 <= j < self.entries().len() && #[trigger] self.entries()[j].0 == id;
        if j != i {
            if j < i {
                assert(self.entries()[j].0 != self.entries()[i].0);
            } else {
                assert(self.entries()[i].0 != self.entries()[j].0);
            }
        }
    }

    /// Every eligible id is one of `ids` and has at most `CLUTTER_LIMIT` failures.
    pub proof fn lemma_eligible(&self, ids: Seq<RoomId>)
        ensures
            forall|i: int|
                0 <= i < self.eligible(ids).len() ==> ids.contains(#[trigger] self.eligible(ids)[i])
                    && self.tries_of(self.eligible(ids)[i]) <= CLUTTER_LIMIT,
        decreases ids.len(),
    {
        if ids.len() > 0 {
            self.lemma_eligible(ids.drop_last());
            let e = self.eligible(ids);
            let rest = self.eligible(ids.drop_last());
            assert forall|i: int| 0 <= i < e.len() implies ids.contains(#[trigger] e[i])
                && self.tries_of(e[i]) <= CLUTTER_LIMIT by {
                if i < rest.len() {
                    assert(e[i] == rest[i]);
                    let w = choose|w: int| 0 <= w < ids.drop_last().len() && ids.drop_last()[w] == rest[i];
                    assert(ids[w] == e[i]);
                } else {
                    assert(e[i] == ids[ids.len() - 1]);
                }
            }
        }
    }

    /// A builder with no failure recorded.
    pub fn new() -> (r: Self)
        ensures
            r.wf(),
            forall|id: RoomId| r.tries_of(id) == 0,
    {
        MapBuilder { clutters: Vec::new() }
    }

    fn find(&self, id: RoomId) -> (r: Option<usize>)
        requires
            self.wf(),
        ensures
            r matches Some(i) ==> i < self.entries().len() && self.entries()[i as int].0 == id,
            r is None ==> forall|i: int|
                0 <= i < self.entries().len() ==> (#[trigger] self.entries()[i]).0 != id,
    {
        let mut i: usize = 0;
        while i < self.clutters.len()
            invariant
                0 <= i <= self.clutters@.len(),
                forall|k: int| 0 <= k < i ==> (#[trigger] self.clutters@[k]).0 != id,
            decreases self.clutters@.len() - i,
        {
            if self.clutters[i].0 == id {
                return Some(i);
            }
            i = i + 1;
        }
        None
    }

    /// Failures recorded for `id`.
    pub fn nb_gen_tries(&self, id: RoomId) -> (r: u8)
        requires
            self.wf(),
        ensures
            r == self.tries_of(id),
    {
        match self.find(id) {
            Some(i) => {
                proof {
                    self.lemma_tries_at(i as int);
                }
                self.clutters[i].1
            },
            None => 0,
        }
    }

    /// Records one more failure to grow from `id`.
    pub fn record_failure(&mut self, id: RoomId)
        requires
            old(self).wf(),
            old(self).tries_of(id) < 255,
        ensures
            final(self).wf(),
            final(self).tries_of(id) == old(self).tries_of(id) + 1,
            forall|o: RoomId| o != id ==> #[trigger] final(self).tries_of(o) == old(self).tries_of(o),
    {
        match self.find(id) {
            Some(i) => {
                proof {
                    self.lemma_tries_at(i as int);
                }
                let count = self.clutters[i].1;
                self.clutters.remove(i);
                self.clutters.insert(i, (id, count + 1));
                assert(self.clutters@ == old(self).clutters@.update(i as int, (id, (count + 1) as u8)));
                proof {
                    self.lemma_tries_at(i as int);
                    assert forall|o: RoomId| o != id implies #[trigger] self.tries_of(o)
                        == old(self).tries_of(o) by {
                        if exists|k: int| 0 <= k < old(self).clutters@.len() && #[trigger] old(self).clutters@[k].0 == o {
                            let k = choose|k: int| 0 <= k < old(self).clutters@.len() && #[trigger] old(self).clutters@[k].0 == o;
                            old(self).lemma_tries_at(k);
                            self.lemma_tries_at(k);
                        } else {
                            assert forall|k: int| 0 <= k < self.clutters@.len() implies #[trigger] self.clutters@[k].0 != o by {
                                if k != i {
                                    assert(old(self).clutters@[k].0 != o);
                                }
                            }
                        }
                    }
                }
            },
            None => {
                self.clutters.push((id, 1));
                proof {
                    let n = old(self).clutters@.len() as int;
                    assert forall|a: int, b: int|
                        0 <= a < b < self.clutters@.len() implies (#[trigger] self.clutters@[a]).0
                        != (#[trigger] self.clutters@[b]).0 by {
                        if b == n {
                            assert(old(self).entries()[a].0 != id);
                        } else {
                            assert(old(self).entries()[a].0 != old(self).entries()[b].0);
                        }
                    }
                    self.lemma_tries_at(n);
                    assert forall|o: RoomId| o != id implies #[trigger] self.tries_of(o)
                        == old(self).tries_of(o) by {
                        if exists|k: int| 0 <= k < old(self).clutters@.len() && #[trigger] old(self).clutters@[k].0 == o {
                            let k = choose|k: int| 0 <= k < old(self).clutters@.len() && #[trigger] old(self).clutters@[k].0 == o;
                            old(self).lemma_tries_at(k);
                            self.lemma_tries_at(k);
                        } else {
                            assert forall|k: int| 0 <= k < self.clutters@.len() implies #[trigger] self.clutters@[k].0 != o by {
                                if k < n {
                                    assert(old(self).clutters@[k].0 != o);
                                }
                            }
                        }
                    }
                }
            },
        }
    }

    /// Forgets every recorded failure.
    pub fn clear(&mut self)
        ensures
            final(self).wf(),
            forall|id: RoomId| final(self).tries_of(id) == 0,
    {
        self.clutters.clear();
    }

    /// The rooms of `map` that may be grown from, in creation order.
    pub fn frontier<T>(&self, map: &RoomMap<T>) -> (r: Vec<RoomId>)
        requires
            self.wf(),
            map.wf(),
        ensures
            r@ == self.eligible(map.ids()),
            forall|i: int|
                0 <= i < r@.len() ==> map.contains(#[trigger] r@[i]) && self.tries_of(r@[i])
                    <= CLUTTER_LIMIT,
    {
        let ids = map.room_ids();
        let mut r: Vec<RoomId> = Vec::new();
        let mut i: usize = 0;
        while i < ids.len()
            invariant
                self.wf(),
                ids@ == map.ids(),
                0 <= i <= ids@.len(),
                r@ == self.eligible(ids@.take(i as int)),
            decreases ids@.len() - i,
        {
            let id = ids[i];
            let count = self.nb_gen_tries(id);
            assert(ids@.take(i + 1).drop_last() == ids@.take(i as int));
            if count <= CLUTTER_LIMIT {
                r.push(id);
            }
            i = i + 1;
        }
        assert(ids@.take(i as int) == ids@);
        proof {
            self.lemma_eligible(map.ids());
        }
        r
    }
}

impl Default for MapBuilder {
    /// A builder with no failure recorded.
    fn default() -> (r: Self)
        ensures
            r.wf(),
            forall|id: RoomId| r.tries_of(id) == 0,
    {
        Self::new()
    }
}

/// The first room of a level: placed alone, unconnected, near the origin.
pub open spec fn seeded(before: &RoomMap<i32>, after: &RoomMap<i32>) -> bool {
    &&& before.ids().len() == 0
    &&& after.ids() == seq![RoomId(before.next_id() as usize)]
    &&& after.next_id() == before.next_id() + 1
    &&& after.rooms().len() == 1
    &&& after.rooms()[0].connections@.len() == 0
    &&& after.rooms()[0].data == SEED_DATA
    &&& -SEED_SPREAD <= after.rooms()[0].position.x <= SEED_SPREAD
    &&& -SEED_SPREAD <= after.rooms()[0].position.y <= SEED_SPREAD
}

/// One room grown from an existing room `from` (the first entry of its
/// connections): at the minimum separation from every room, one to two times
/// that separation away from `from`, connected both ways with `from` and then
/// with every room closer than `NEIGHBOUR_RADIUS`. Older rooms change only by
/// these connections to the new room.
pub open spec fn grown_dense(before: &RoomMap<i32>, after: &RoomMap<i32>) -> bool {
    let n = before.ids().len() as int;
    let new_id = RoomId(before.next_id() as usize);
    let new_room = after.rooms()[n];
    let p = new_room.position;
    let from = new_room.connections@[0];
    &&& after.ids() == before.ids().push(new_id)
    &&& after.next_id() == before.next_id() + 1
    &&& after.rooms().len() == n + 1
    &&& before.contains(from)
    &&& is_clear(before.positions(), p, MIN_DISTANCE as int)
    &&& MIN_DISTANCE <= cheb(p, before.position_of(from)) <= 2 * MIN_DISTANCE
    &&& new_room.data == ROOM_DATA
    &&& new_room.connections@ == seq![from] + near_ids(
        before.ids(),
        before.positions(),
        new_id,
        p,
        NEIGHBOUR_RADIUS as int,
        n,
    )
    &&& forall|i: int|
        0 <= i < n ==> {
            &&& (#[trigger] after.rooms()[i]).position == before.rooms()[i].position
            &&& after.rooms()[i].data == before.rooms()[i].data
            &&& after.rooms()[i].connections@ == before.rooms()[i].connections@ + (if before.ids()[i]
                == from {
                seq![new_id]
            } else {
                Seq::empty()
            }) + (if is_near(before.positions()[i], p, NEIGHBOUR_RADIUS as int) {
                seq![new_id]
            } else {
                Seq::empty()
            })
        }
}

/// What one growth step may do to a level.
pub open spec fn level_step(before: &RoomMap<i32>, after: &RoomMap<i32>) -> bool {
    RoomMap::unchanged(before, after) || seeded(before, after) || grown_dense(before, after)
}

/// One growth attempt as the failure counts see it: `from` was picked among
/// the rooms of `map` with at most `CLUTTER_LIMIT` failures or, when there
/// were none, among all rooms after every count was cleared; a failed attempt
/// then adds one to the count of `from`, and nothing else changes.
pub open spec fn attempt_step(
    before: &MapBuilder,
    after: &MapBuilder,
    map: &RoomMap<i32>,
    from: RoomId,
    failed: bool,
) -> bool {
    &&& map.contains(from)
    &&& if before.eligible(map.ids()).len() == 0 {
        forall|id: RoomId|
            #[trigger] after.tries_of(id) == (if failed && id == from {
                1nat
            } else {
                0nat
            })
    } else {
        &&& before.eligible(map.ids()).contains(from)
        &&& before.tries_of(from) <= CLUTTER_LIMIT
        &&& forall|id: RoomId|
            #[trigger] after.tries_of(id) == before.tries_of(id) + (if failed && id == from {
                1nat
            } else {
                0nat
            })
    }
}

/// The attempts of one growth step on a non-empty level, with the failure
/// counts between them (`builders`) and the rooms grown from (`froms`): every
/// attempt but the last failed; the last succeeded exactly when the level
/// grew, from the room the new room is first connected to; and when it did
/// not grow, all `STEP_ATTEMPTS` attempts were made.
pub open spec fn attempts(
    first: &MapBuilder,
    last: &MapBuilder,
    before: &RoomMap<i32>,
    after: &RoomMap<i32>,
    builders: Seq<MapBuilder>,
    froms: Seq<RoomId>,
) -> bool {
    let n = froms.len() as int;
    let grew = !RoomMap::unchanged(before, after);
    &&& 1 <= n <= STEP_ATTEMPTS
    &&& builders.len() == n + 1
    &&& builders[0] == *first
    &&& builders[n] == *last
    &&& forall|k: int|
        0 <= k < n ==> attempt_step(
            &builders[k],
            &builders[k + 1],
            before,
            #[trigger] froms[k],
            k < n - 1 || !grew,
        )
    &&& !grew ==> n == STEP_ATTEMPTS
    &&& grew ==> after.rooms()[before.ids().len() as int].connections@[0] == froms[n - 1]
}

/// One growth step. An empty level gets its first room. Otherwise up to
/// `STEP_ATTEMPTS` times: pick at random a room with at most `CLUTTER_LIMIT`
/// failures (clearing all counts when none is left), try to grow a room from
/// it and, on success, connect the new room with its close neighbours and
/// stop; on failure record it against the picked room. When every attempt
/// fails the level stays as it was. A level of one room always grows.
pub fn create_room(map: &mut RoomMap<i32>, builder: &mut MapBuilder, random: &mut RandomDeterministic)
    requires
        old(map).wf(),
        old(builder).wf(),
        old(map).next_id() < usize::MAX,
    ensures
        final(map).wf(),
        final(builder).wf(),
        level_step(old(map), final(map)),
        old(map).ids().len() == 0 ==> seeded(old(map), final(map)),
        old(map).ids().len() == 1 && ring_fits(old(map).rooms()[0].position, MIN_DISTANCE as int)
            ==> grown_dense(old(map), final(map)),
        old(map).ids().len() == 0 ==> forall|id: RoomId| #[trigger] final(builder).tries_of(id) == 0,
        old(map).ids().len() > 0 ==> exists|builders: Seq<MapBuilder>, froms: Seq<RoomId>|
            #[trigger] attempts(old(builder), final(builder), old(map), final(map), builders, froms),
{
    let ghost mut builders: Seq<MapBuilder> = seq![*builder];
    let ghost mut froms: Seq<RoomId> = Seq::empty();
    let mut attempt: u32 = 0;
    while attempt < STEP_ATTEMPTS
        invariant
            old(map).wf(),
            old(map).next_id() < usize::MAX,
            map.wf(),
            builder.wf(),
            RoomMap::unchanged(old(map), map),
            map.ids().len() == 0 ==> attempt == 0,
            map.ids().len() == 1 && ring_fits(map.rooms()[0].position, MIN_DISTANCE as int)
                ==> attempt == 0,
            attempt <= STEP_ATTEMPTS,
            builders.len() == attempt + 1,
            froms.len() == attempt,
            builders[0] == *old(builder),
            builders[attempt as int] == *builder,
            forall|k: int|
                0 <= k < attempt ==> attempt_step(
                    &builders[k],
                    &builders[k + 1],
                    old(map),
                    #[trigger] froms[k],
                    true,
                ),
        decreases STEP_ATTEMPTS - attempt,
    {
        let ghost before = *map;
        let ghost b0 = *builder;
        let mut candidates = builder.frontier(map);
        if candidates.len() == 0 {
            builder.clear();
            candidates = map.room_ids();
            if candidates.len() == 0 {
                let x = draw_range(&mut random.random, -SEED_SPREAD as i128, SEED_SPREAD as i128 + 1) as i32;
                let y = draw_range(&mut random.random, -SEED_SPREAD as i128, SEED_SPREAD as i128 + 1) as i32;
                let connections: Vec<RoomId> = Vec::new();
                map.create_raw(SEED_DATA, Position { x, y }, connections);
                assert(map.ids() =~= seq![RoomId(old(map).next_id() as usize)]);
                assert(map.rooms()[0].connections@ =~= Seq::<RoomId>::empty());
                return;
            }
        }
        assert(forall|i: int| 0 <= i < candidates@.len() ==> map.contains(#[trigger] candidates@[i])
            && builder.tries_of(candidates@[i]) <= CLUTTER_LIMIT);
        let idx = draw_range(&mut random.random, 0, candidates.len() as i128) as usize;
        let from = candidates[idx];
        assert(map.contains(from));
        proof {
            if b0.eligible(map.ids()).len() != 0 {
                assert(b0.eligible(map.ids())[idx as int] == from);
                b0.lemma_eligible(map.ids());
            }
        }
        proof {
            if map.ids().len() == 1 {
                let w = choose|w: int| 0 <= w < map.ids().len() && map.ids()[w] == from;
                assert(w == 0);
                map.lemma_index_of(0);
            }
        }
        match map.add(from, ROOM_DATA, &mut random.random, ADD_TRIES) {
            Ok(room_id) => {
                let ghost mid = *map;
                proof {
                    let n = before.ids().len() as int;
                    mid.lemma_index_of(n);
                }
                map.connect_nearby(room_id, NEIGHBOUR_RADIUS);
                proof {
                    lemma_grown_dense(&before, &mid, map, from);
                    let bs = builders.push(*builder);
                    let fs = froms.push(from);
                    assert(attempt_step(&b0, builder, old(map), from, false));
                    assert(bs[attempt as int] == b0);
                    assert(attempts(old(builder), builder, old(map), map, bs, fs));
                }
                return;
            },
            Err(_) => {
                builder.record_failure(from);
            },
        }
        proof {
            assert(attempt_step(&b0, builder, old(map), from, true));
            builders = builders.push(*builder);
            froms = froms.push(from);
        }
        attempt = attempt + 1;
    }
    assert(attempts(old(builder), builder, old(map), map, builders, froms));
}

/// A successful `add` followed by `connect_nearby` on the new room is one
/// dense growth step.
proof fn lemma_grown_dense(
    before: &RoomMap<i32>,
    mid: &RoomMap<i32>,
    after: &RoomMap<i32>,
    from: RoomId,
)
    requires
        before.wf(),
        mid.wf(),
        before.contains(from),
        RoomMap::grown_from(before, mid, from, ROOM_DATA, mid.rooms().last().position),
        is_clear(before.positions(), mid.rooms().last().position, MIN_DISTANCE as int),
        MIN_DISTANCE <= cheb(mid.rooms().last().position, before.position_of(from)) <= 2
            * MIN_DISTANCE,
        mid.index_of(RoomId(before.next_id() as usize)) == before.ids().len(),
        after.ids() == mid.ids(),
        after.next_id() == mid.next_id(),
        after.rooms().len() == mid.rooms().len(),
        ({
            let id = RoomId(before.next_id() as usize);
            let k = mid.index_of(id);
            let p = mid.position_of(id);
            let near = near_ids(
                mid.ids(),
                mid.positions(),
                id,
                p,
                NEIGHBOUR_RADIUS as int,
                mid.ids().len() as int,
            );
            &&& after.rooms()[k].connections@ == mid.rooms()[k].connections@ + near
            &&& after.rooms()[k].position == mid.rooms()[k].position
            &&& after.rooms()[k].data == mid.rooms()[k].data
            &&& forall|j: int|
                0 <= j < mid.rooms().len() && j != k ==> if is_near(
                    #[trigger] mid.positions()[j],
                    p,
                    NEIGHBOUR_RADIUS as int,
                ) {
                    pushed_connection(mid.rooms()[j], after.rooms()[j], id)
                } else {
                    after.rooms()[j] == mid.rooms()[j]
                }
        }),
    ensures
        grown_dense(before, after),
{
    let n = before.ids().len() as int;
    let new_id = RoomId(before.next_id() as usize);
    let p = mid.rooms()[n].position;
    let kf = before.index_of(from);
    let r = NEIGHBOUR_RADIUS as int;
    assert(mid.rooms().last() == mid.rooms()[n]);
    assert(mid.ids()[n] == new_id);
    assert(mid.position_of(new_id) == p);
    assert forall|i: int| 0 <= i < n implies #[trigger] mid.rooms()[i] == (if i == kf {
        mid.rooms().take(n)[i]
    } else {
        before.rooms()[i]
    }) by {
        assert(mid.rooms().take(n)[i] == mid.rooms()[i]);
    }
    assert(mid.ids().take(n) =~= before.ids().take(n));
    assert(mid.positions().take(n) =~= before.positions().take(n)) by {
        assert forall|i: int| 0 <= i < n implies mid.positions().take(n)[i] == before.positions().take(
            n,
        )[i] by {
            assert(mid.rooms().take(n)[i] == mid.rooms()[i]);
        }
    }
    lemma_near_ids_prefix(
        mid.ids(),
        mid.positions(),
        before.ids(),
        before.positions(),
        new_id,
        p,
        r,
        n,
    );
    assert(near_ids(mid.ids(), mid.positions(), new_id, p, r, n + 1) == near_ids(
        before.ids(),
        before.positions(),
        new_id,
        p,
        r,
        n,
    ));
    assert(after.rooms()[n].connections@[0] == from);
    assert forall|i: int| 0 <= i < n implies {
        &&& (#[trigger] after.rooms()[i]).position == before.rooms()[i].position
        &&& after.rooms()[i].data == before.rooms()[i].data
        &&& after.rooms()[i].connections@ == before.rooms()[i].connections@ + (if before.ids()[i]
            == from {
            seq![new_id]
        } else {
            Seq::empty()
        }) + (if is_near(before.positions()[i], p, r) {
            seq![new_id]
        } else {
            Seq::empty()
        })
    } by {
        before.lemma_index_of(i);
        assert(mid.rooms().take(n)[i] == mid.rooms()[i]);
        assert(mid.positions()[i] == before.positions()[i]);
        if i == kf {
            assert(before.ids()[i] == from);
        } else {
            assert(before.ids()[i] != from);
        }
    }
}

/// A growth step keeps every two rooms of a level at least `MIN_DISTANCE`
/// apart.
pub proof fn lemma_level_step_keeps_spacing(before: &RoomMap<i32>, after: &RoomMap<i32>)
    requires
        before.wf(),
        level_step(before, after),
        spaced(before.positions(), MIN_DISTANCE as int),
    ensures
        spaced(after.positions(), MIN_DISTANCE as int),
{
    let d = MIN_DISTANCE as int;
    if grown_dense(before, after) && !RoomMap::unchanged(before, after) {
        let n = before.ids().len() as int;
        let p = after.rooms()[n].position;
        assert forall|i: int, j: int|
            0 <= i < j < after.positions().len() implies #[trigger] crate::geometry::dist2(
            after.positions()[i],
            after.positions()[j],
        ) >= d * d by {
            assert(after.positions()[i] == after.rooms()[i].position);
            assert(after.rooms()[i].position == before.rooms()[i].position);
            assert(before.positions()[i] == before.rooms()[i].position);
            if j < n {
                assert(after.rooms()[j].position == before.rooms()[j].position);
                assert(before.positions()[j] == before.rooms()[j].position);
            } else {
                assert(after.positions()[j] == p);
            }
        }
    }
}

/// Runs `LEVEL_STEPS` growth steps. Rooms are only added, rooms that were
/// `MIN_DISTANCE` apart stay so, and a level started empty ends with at least
/// two rooms.
pub fn create_level(map: &mut RoomMap<i32>, builder: &mut MapBuilder, random: &mut RandomDeterministic)
    requires
        old(map).wf(),
        old(builder).wf(),
        old(map).next_id() + LEVEL_STEPS <= usize::MAX,
    ensures
        final(map).wf(),
        final(builder).wf(),
        final(map).next_id() <= old(map).next_id() + LEVEL_STEPS,
        final(map).ids().len() >= old(map).ids().len(),
        final(map).ids().take(old(map).ids().len() as int) == old(map).ids(),
        old(map).ids().len() == 0 ==> final(map).ids().len() >= 2,
        spaced(old(map).positions(), MIN_DISTANCE as int) ==> spaced(
            final(map).positions(),
            MIN_DISTANCE as int,
        ),
{
    let ghost n0 = old(map).ids().len() as int;
    let mut step: u32 = 0;
    while step < LEVEL_STEPS
        invariant
            map.wf(),
            builder.wf(),
            step <= LEVEL_STEPS,
            old(map).next_id() <= map.next_id() <= old(map).next_id() + step,
            old(map).next_id() + LEVEL_STEPS <= usize::MAX,
            n0 == old(map).ids().len(),
            map.ids().len() >= n0,
            map.ids().take(n0) == old(map).ids(),
            step == 0 ==> map.ids().len() == n0,
            n0 == 0 && step >= 1 ==> map.ids().len() >= 1,
            n0 == 0 && step >= 1 && map.ids().len() == 1 ==> -SEED_SPREAD <= map.rooms()[0].position.x
                <= SEED_SPREAD && -SEED_SPREAD <= map.rooms()[0].position.y <= SEED_SPREAD,
            n0 == 0 && step >= 2 ==> map.ids().len() >= 2,
            spaced(old(map).positions(), MIN_DISTANCE as int) ==> spaced(
                map.positions(),
                MIN_DISTANCE as int,
            ),
        decreases LEVEL_STEPS - step,
    {
        let ghost before = *map;
        proof {
            if n0 == 0 && step >= 1 && before.ids().len() == 1 {
                assert(ring_fits(before.rooms()[0].position, MIN_DISTANCE as int));
            }
        }
        create_room(map, builder, random);
        proof {
            if grown_dense(&before, map) {
                assert(map.ids().take(n0) =~= before.ids().take(n0));
            }
            if seeded(&before, map) {
                assert(map.ids().take(n0) =~= before.ids().take(n0));
            }
            if spaced(before.positions(), MIN_DISTANCE as int) {
                lemma_level_step_keeps_spacing(&before, map);
            }

        }
        step = step + 1;
    }
}

} // verus!

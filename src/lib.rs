//! A spatial graph of rooms, grown by rejection sampling around existing
//! rooms, with the bookkeeping that grows a whole level from it.
//!
//! - `geometry`: integer positions and distance tests.
//! - `random`: the seeded random stream.
//! - `sampler`: the search for a free position near a reference point.
//! - `map`: the room graph itself.
//! - `builder`: level growth, with frontier selection and dense wiring.
//! - `game`: game rules that read or change the graph.

pub mod builder;
pub mod game;
pub mod geometry;
pub mod map;
pub mod random;
pub mod sampler;

pub use builder::{create_level, create_room, MapBuilder};
pub use game::{can_move_to, collect_pickups, destroy_room, expand_room, pick_connection, spawn_def, SpawnDef};
pub use geometry::{distance_squared, is_clear_of, Position};
pub use map::{ErrorAdd, Room, RoomId, RoomMap};
pub use random::RandomDeterministic;
pub use sampler::{get_position_around, pick_first, ring_offset, sample_position, try_position, MIN_DISTANCE};

//! A procedural building-layout generator.
//!
//! The library turns a list of desired rooms (target floor areas, perimeter
//! access) into a fully partitioned floor plan: a tree of axis-aligned
//! rectangles grown by randomized recursive subdivision, with hallway
//! corridors, a room-assignment pass, and door placement.
//!
//! All geometry lives on an integer grid so that areas and probabilities are
//! exact; randomness is drawn from an explicit seeded source, which makes
//! generation reproducible. Every operation's contract pins its result as a
//! function of the inputs and the random source, and the structural laws —
//! exact tiling, leaf exhaustiveness, room terminality, assignment
//! compliance, determinism — are proved in [`laws`].

pub mod assign;
pub mod generate;
pub mod laws;
pub mod params;
pub mod rect;
pub mod rng;
pub mod subdivide;
pub mod tree;

pub use generate::{generate_building, BuildingPlan, GenerationError};
pub use params::{BuildingIterationParameters, RoomSpec};
pub use rect::Rect;
pub use rng::RandomSource;
pub use tree::{BuildingChunk, BuildingChunkData, DoorEnum, Doors};

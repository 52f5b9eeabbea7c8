//! Verified core of a voxel game engine: chunk storage and compression,
//! world coordinates, lighting, meshing, world generation, buffer
//! allocation bookkeeping and the state of the game menu.

pub mod chunk;
pub mod world;
pub mod player;
pub mod time;
pub mod worldgen;
pub mod buffers;
pub mod block;
pub mod item;
pub mod meshing;
pub mod light;
pub mod greedy;
pub mod collections;
pub mod model;
pub mod client_world;
pub mod meshing_queue;
pub mod ui;
pub mod input;

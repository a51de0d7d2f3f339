//! Core of a streaming voxel world: palette-compressed chunks with a
//! variable-width bit-packed index array, an on-disk region container with
//! free-space management and compaction, load/save scheduling, and the
//! world-level streaming coordinator (dirty tracking, meshing, raycasting).

pub mod bits;
pub mod block;
pub mod pos;
pub mod region;
pub mod world;
pub mod chunk;
pub mod chunk_loader;
pub mod chunk_map;
pub mod direction;
pub mod mesh;

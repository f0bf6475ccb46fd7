//! A voxel world core: run-compressed voxel rows, fixed-size chunks, a
//! bounded sparse world index, a generation/meshing scheduler, and a greedy
//! quad mesher with one-voxel neighbor borders.

pub mod chunk;
pub mod directions;
pub mod map;
pub mod material;
pub mod mesher;
pub mod meshing_chunk;
pub mod row;
pub mod voxel;
pub mod world;

//! A linearized sparse voxel octree over a cubic integer domain.
//!
//! The octree encodes occupancy of a power-of-two cube as one flat byte
//! buffer: one byte per interior node, one bit per child, addressed by the
//! closed-form recurrence `offset * 8 + child + 1`. A [`chunk::Chunk`] pairs
//! the octree with a dense per-voxel grid and exports both as raw bytes.

pub mod cell;
pub mod chunk;
pub mod point;
pub mod tree;


//! The seven sampling directions of the mesher: a chunk itself and its six
//! face-adjacent neighbors.

use vstd::prelude::*;

use crate::chunk::ChunkPosition;

verus! {

/// A face direction in chunk-grid space, or `Zero` for the chunk itself.
#[derive(Clone, Copy, PartialEq, Eq, Structural, Debug)]
pub enum Directions {
    Zero,
    X,
    NegX,
    Y,
    NegY,
    Z,
    NegZ,
}

impl Directions {
    /// The unit offset of the direction in chunk-grid space.
    pub open spec fn to_vector_spec(self) -> ChunkPosition {
        match self {
            Directions::Zero => ChunkPosition { x: 0, y: 0, z: 0 },
            Directions::X => ChunkPosition { x: 1, y: 0, z: 0 },
            Directions::NegX => ChunkPosition { x: -1i32, y: 0, z: 0 },
            Directions::Y => ChunkPosition { x: 0, y: 1, z: 0 },
            Directions::NegY => ChunkPosition { x: 0, y: -1i32, z: 0 },
            Directions::Z => ChunkPosition { x: 0, y: 0, z: 1 },
            Directions::NegZ => ChunkPosition { x: 0, y: 0, z: -1i32 },
        }
    }

    /// Every direction once, the chunk itself first, in the order the
    /// mesher's border sampling expects its neighbor snapshots.
    pub fn all() -> (r: [Directions; 7])
        ensures
            r@ =~= seq![
                Directions::Zero,
                Directions::X,
                Directions::NegX,
                Directions::Y,
                Directions::NegY,
                Directions::Z,
                Directions::NegZ,
            ],
    {
        [
            Directions::Zero,
            Directions::X,
            Directions::NegX,
            Directions::Y,
            Directions::NegY,
            Directions::Z,
            Directions::NegZ,
        ]
    }

    /// The unit offset of the direction in chunk-grid space.
    pub fn to_vector(&self) -> (v: ChunkPosition)
        ensures
            v == self.to_vector_spec(),
    {
        match self {
            Directions::Zero => ChunkPosition { x: 0, y: 0, z: 0 },
            Directions::X => ChunkPosition { x: 1, y: 0, z: 0 },
            Directions::NegX => ChunkPosition { x: -1, y: 0, z: 0 },
            Directions::Y => ChunkPosition { x: 0, y: 1, z: 0 },
            Directions::NegY => ChunkPosition { x: 0, y: -1, z: 0 },
            Directions::Z => ChunkPosition { x: 0, y: 0, z: 1 },
            Directions::NegZ => ChunkPosition { x: 0, y: 0, z: -1 },
        }
    }
}

} // verus!

//! The smallest unit of world data: a cell holding a material identifier.
//! Material id 0 means "empty/void"; any other id is an opaque material.

use vstd::prelude::*;

verus! {

/// The material id of the built-in "void" entry of the material registry.
pub const EMPTY_MATERIAL: u16 = 0;

/// The material id of the first registered solid material, used by the
/// built-in terrain generator.
pub const FULL_MATERIAL: u16 = 1;

/// A single cell of the voxel grid: just a material identifier.
/// Equality of the material id defines mergeability during meshing.
#[derive(Clone, Copy, PartialEq, Eq, Structural, Debug, Hash)]
pub struct Voxel(pub u16);

/// How a voxel interacts with the meshing occlusion test: empty cells
/// produce no geometry and never occlude, opaque cells do both.
#[derive(Clone, Copy, PartialEq, Eq, Structural, Debug)]
pub enum VoxelVisibility {
    Empty,
    Opaque,
}

impl Voxel {
    /// True when the cell holds no material.
    pub open spec fn is_empty_spec(self) -> bool {
        self.0 == EMPTY_MATERIAL
    }

    /// True when the cell holds a material that occludes its neighbors.
    pub open spec fn is_opaque_spec(self) -> bool {
        self.0 != EMPTY_MATERIAL
    }

    /// The empty/void voxel, the default state of fresh storage.
    pub fn empty() -> (v: Voxel)
        ensures
            v.is_empty_spec(),
            v == (Voxel { 0: EMPTY_MATERIAL }),
    {
        Voxel(EMPTY_MATERIAL)
    }

    /// A fully opaque voxel of the built-in solid material.
    pub fn full() -> (v: Voxel)
        ensures
            v.is_opaque_spec(),
            v == (Voxel { 0: FULL_MATERIAL }),
    {
        Voxel(FULL_MATERIAL)
    }

    /// Classifies the voxel for the meshing occlusion test.
    pub fn get_visibility(&self) -> (r: VoxelVisibility)
        ensures
            r == VoxelVisibility::Opaque <==> self.is_opaque_spec(),
            r == VoxelVisibility::Empty <==> self.is_empty_spec(),
    {
        if self.0 == EMPTY_MATERIAL {
            VoxelVisibility::Empty
        } else {
            VoxelVisibility::Opaque
        }
    }

    /// The value that decides whether two exposed faces may be merged into
    /// one quad: faces merge exactly when their voxels are equal.
    pub fn merge_value(&self) -> (r: Voxel)
        ensures
            r == *self,
    {
        *self
    }
}

impl Default for Voxel {
    /// A fresh voxel is empty.
    fn default() -> (v: Voxel)
        ensures
            v.is_empty_spec(),
    {
        Voxel(EMPTY_MATERIAL)
    }
}

} // verus!

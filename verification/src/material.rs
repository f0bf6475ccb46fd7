//! The material registry: a flat table from material id to name and color.
//! A voxel stores only its `u16` material id; every name or color lookup
//! goes through this table. Id 0 is always the built-in "Void" entry.

use vstd::prelude::*;

verus! {

/// An sRGB color with alpha, one byte per channel.
#[derive(Clone, Copy, PartialEq, Eq, Structural, Debug)]
pub struct MaterialColor {
    pub red: u8,
    pub green: u8,
    pub blue: u8,
    pub alpha: u8,
}

/// What a material id stands for: a display name and a render color.
pub struct VoxelMaterial {
    pub name: String,
    pub color: MaterialColor,
}

impl VoxelMaterial {
    /// The material's display name.
    pub fn get_name(&self) -> (r: &String)
        ensures
            r == &self.name,
    {
        &self.name
    }

    /// The material's render color.
    pub fn get_color(&self) -> (r: MaterialColor)
        ensures
            r == self.color,
    {
        self.color
    }
}

/// Links material ids to materials: the id of a material is its position in
/// the registration order, starting at 0 with the built-in void entry.
pub struct VoxelMaterialRegistry {
    pub materials: Vec<VoxelMaterial>,
}

impl VoxelMaterialRegistry {
    /// The material registered under `id`, or nothing for an unassigned id.
    pub fn get(&self, id: u16) -> (r: Option<&VoxelMaterial>)
        ensures
            (r is Some) == ((id as int) < self.materials@.len()),
            r matches Some(m) ==> m == &self.materials@[id as int],
    {
        if (id as usize) < self.materials.len() {
            Some(&self.materials[id as usize])
        } else {
            None
        }
    }

    /// Registers a material and assigns it the next id in sequence.
    pub fn register(&mut self, material: VoxelMaterial) -> (id: u16)
        requires
            old(self).materials@.len() < 0x10000,
        ensures
            final(self).materials@ == old(self).materials@.push(material),
            id as int == old(self).materials@.len(),
    {
        let id = self.materials.len() as u16;
        self.materials.push(material);
        id
    }

    /// Every registered material, in id order.
    pub fn iter(&self) -> (r: &Vec<VoxelMaterial>)
        ensures
            r == &self.materials,
    {
        &self.materials
    }
}

impl Default for VoxelMaterialRegistry {
    /// A registry holding only the built-in "Void" entry under id 0.
    fn default() -> (r: VoxelMaterialRegistry)
        ensures
            r.materials@.len() == 1,
            r.materials@[0].name@ == "Void"@,
            r.materials@[0].color == (MaterialColor { red: 0, green: 0, blue: 0, alpha: 255 }),
    {
        let mut registry = VoxelMaterialRegistry { materials: Vec::new() };
        registry.register(
            VoxelMaterial {
                name: "Void".to_string(),
                color: MaterialColor { red: 0, green: 0, blue: 0, alpha: 255 },
            },
        );
        registry
    }
}

} // verus!

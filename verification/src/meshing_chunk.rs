//! The mesher's input snapshot: one chunk's voxels padded by a one-voxel
//! border copied from the six face-adjacent neighbor chunks, so that faces on
//! chunk boundaries are decided without seams. An absent neighbor contributes
//! an all-empty border; border edges and corners, which no face test reads
//! across, are left empty.

use vstd::prelude::*;

use crate::chunk::Chunk;
use crate::voxel::{Voxel, EMPTY_MATERIAL};

verus! {

/// The side length of the padded sample volume: 32 plus a border on each side.
pub const MESH_CHUNK_DIM: usize = 34;

/// The number of voxels in the padded sample volume.
pub const MESH_VOLUME: usize = 34 * 34 * 34;

/// The linear index of padded sample coordinates, x varying fastest.
pub open spec fn sample_index(x: int, y: int, z: int) -> int {
    x + 34 * y + 1156 * z
}

/// The voxel a sample sequence holds at padded coordinates (x, y, z).
pub open spec fn seq_sample(s: Seq<Voxel>, x: int, y: int, z: int) -> Voxel {
    s[sample_index(x, y, z)]
}

/// The empty voxel, as a spec value.
pub open spec fn empty_voxel() -> Voxel {
    Voxel { 0: EMPTY_MATERIAL }
}

/// The voxel an optional chunk holds at (x, y, z): empty when absent.
pub open spec fn opt_vox(chunk: Option<Chunk>, x: int, y: int, z: int) -> Voxel {
    match chunk {
        Some(c) => c.vox(x, y, z),
        None => empty_voxel(),
    }
}

/// The chunk values behind a list of chunk references.
pub open spec fn deref_chunks(s: Seq<Option<&Chunk>>) -> Seq<Option<Chunk>> {
    Seq::new(
        s.len(),
        |i: int|
            match s[i] {
                Some(c) => Some(*c),
                None => None,
            },
    )
}

/// Whether an optional chunk satisfies the chunk storage invariant.
pub open spec fn opt_wf(chunk: Option<&Chunk>) -> bool {
    match chunk {
        Some(c) => c.wf(),
        None => true,
    }
}

/// What border sampling must place at padded coordinates (px, py, pz),
/// given the chunk itself and its six neighbors in the order of
/// `Directions::all`: the chunk's own voxels in the interior, the adjacent
/// face of each neighbor on the six border faces, and empty voxels on border
/// edges and corners and wherever a chunk is absent.
pub open spec fn border_sample(chunks: Seq<Option<Chunk>>, px: int, py: int, pz: int) -> Voxel {
    let in_y = 1 <= py < 33;
    let in_z = 1 <= pz < 33;
    let in_x = 1 <= px < 33;
    if in_x && in_y && in_z {
        opt_vox(chunks[0], px - 1, py - 1, pz - 1)
    } else if px == 33 && in_y && in_z {
        opt_vox(chunks[1], 0, py - 1, pz - 1)
    } else if px == 0 && in_y && in_z {
        opt_vox(chunks[2], 31, py - 1, pz - 1)
    } else if py == 33 && in_x && in_z {
        opt_vox(chunks[3], px - 1, 0, pz - 1)
    } else if py == 0 && in_x && in_z {
        opt_vox(chunks[4], px - 1, 31, pz - 1)
    } else if pz == 33 && in_x && in_y {
        opt_vox(chunks[5], px - 1, py - 1, 0)
    } else if pz == 0 && in_x && in_y {
        opt_vox(chunks[6], px - 1, py - 1, 31)
    } else {
        empty_voxel()
    }
}

/// The whole padded sample volume that border sampling prescribes for a
/// chunk list, laid out by linear sample index.
pub open spec fn mesh_input(chunks: Seq<Option<Chunk>>) -> Seq<Voxel> {
    Seq::new(
        MESH_VOLUME as nat,
        |i: int| border_sample(chunks, i % 34, (i / 34) % 34, i / 1156),
    )
}

/// A sample volume whose every sample follows `border_sample` is exactly the
/// `mesh_input` of its chunk list.
pub proof fn lemma_samples_are_mesh_input(mc: MeshingChunk, chunks: Seq<Option<Chunk>>)
    requires
        mc.wf(),
        forall|px: int, py: int, pz: int|
            0 <= px < 34 && 0 <= py < 34 && 0 <= pz < 34 ==> #[trigger] mc.sample(px, py, pz)
                == border_sample(chunks, px, py, pz),
    ensures
        mc.samples@ == mesh_input(chunks),
{
    assert forall|i: int| 0 <= i < MESH_VOLUME as int implies mc.samples@[i] == mesh_input(
        chunks,
    )[i] by {
        lemma_sample_delinearize(i);
        assert(mc.sample(i % 34, (i / 34) % 34, i / 1156) == border_sample(
            chunks,
            i % 34,
            (i / 34) % 34,
            i / 1156,
        ));
    }
    assert(mc.samples@ =~= mesh_input(chunks));
}

/// A chunk's voxels padded by a one-voxel border sampled from its neighbors:
/// the owned, immutable input of one meshing task.
pub struct MeshingChunk {
    pub samples: Vec<Voxel>,
}

impl MeshingChunk {
    /// The storage invariant: one voxel per padded coordinate.
    pub open spec fn wf(self) -> bool {
        self.samples@.len() == MESH_VOLUME as int
    }

    /// The voxel held at padded coordinates (x, y, z).
    pub open spec fn sample(self, x: int, y: int, z: int) -> Voxel {
        seq_sample(self.samples@, x, y, z)
    }

    /// Reads the voxel at padded coordinates (x, y, z).
    pub fn get_sample(&self, x: usize, y: usize, z: usize) -> (v: Voxel)
        requires
            self.wf(),
            x < MESH_CHUNK_DIM,
            y < MESH_CHUNK_DIM,
            z < MESH_CHUNK_DIM,
        ensures
            v == self.sample(x as int, y as int, z as int),
    {
        self.samples[x + 34 * y + 1156 * z]
    }

    /// Builds the padded sample volume from a chunk and its six face
    /// neighbors, given in the order of `Directions::all`. Every sample is
    /// exactly what `border_sample` prescribes; in particular an absent
    /// neighbor (despawned, not yet generated, or out of bounds) yields an
    /// all-empty border face rather than an error.
    pub fn new(chunks: [Option<&Chunk>; 7]) -> (r: MeshingChunk)
        requires
            forall|k: int| 0 <= k < 7 ==> opt_wf(#[trigger] chunks@[k]),
        ensures
            r.wf(),
            forall|px: int, py: int, pz: int|
                0 <= px < 34 && 0 <= py < 34 && 0 <= pz < 34 ==> #[trigger] r.sample(px, py, pz)
                    == border_sample(deref_chunks(chunks@), px, py, pz),
    {
        let ghost dchunks = deref_chunks(chunks@);
        let mut samples: Vec<Voxel> = Vec::with_capacity(MESH_VOLUME);
        let mut i: usize = 0;
        while i < MESH_VOLUME
            invariant
                i <= MESH_VOLUME,
                samples@.len() == i as int,
                forall|k: int| 0 <= k < 7 ==> opt_wf(#[trigger] chunks@[k]),
                dchunks == deref_chunks(chunks@),
                forall|j: int|
                    0 <= j < i as int ==> #[trigger] samples@[j] == border_sample(
                        dchunks,
                        j % 34,
                        (j / 34) % 34,
                        j / 1156,
                    ),
            decreases MESH_VOLUME - i,
        {
            let px = i % 34;
            let py = (i / 34) % 34;
            let pz = i / 1156;
            proof {
                lemma_sample_delinearize(i as int);
                assert(pz == (i as int / 34) / 34) by {
                    vstd::arithmetic::div_mod::lemma_div_denominator(i as int, 34, 34);
                }
            }
            let in_x = 1 <= px && px < 33;
            let in_y = 1 <= py && py < 33;
            let in_z = 1 <= pz && pz < 33;
            let v: Voxel = if in_x && in_y && in_z {
                match chunks[0] {
                    Some(c) => c.get(px - 1, py - 1, pz - 1),
                    None => Voxel::empty(),
                }
            } else if px == 33 && in_y && in_z {
                match chunks[1] {
                    Some(c) => c.get(0, py - 1, pz - 1),
                    None => Voxel::empty(),
                }
            } else if px == 0 && in_y && in_z {
                match chunks[2] {
                    Some(c) => c.get(31, py - 1, pz - 1),
                    None => Voxel::empty(),
                }
            } else if py == 33 && in_x && in_z {
                match chunks[3] {
                    Some(c) => c.get(px - 1, 0, pz - 1),
                    None => Voxel::empty(),
                }
            } else if py == 0 && in_x && in_z {
                match chunks[4] {
                    Some(c) => c.get(px - 1, 31, pz - 1),
                    None => Voxel::empty(),
                }
            } else if pz == 33 && in_x && in_y {
                match chunks[5] {
                    Some(c) => c.get(px - 1, py - 1, 0),
                    None => Voxel::empty(),
                }
            } else if pz == 0 && in_x && in_y {
                match chunks[6] {
                    Some(c) => c.get(px - 1, py - 1, 31),
                    None => Voxel::empty(),
                }
            } else {
                Voxel::empty()
            };
            proof {
                assert(dchunks[0] == (match chunks@[0] {
                    Some(c) => Some(*c),
                    None => None,
                }));
                assert(dchunks[1] == (match chunks@[1] {
                    Some(c) => Some(*c),
                    None => None,
                }));
                assert(dchunks[2] == (match chunks@[2] {
                    Some(c) => Some(*c),
                    None => None,
                }));
                assert(dchunks[3] == (match chunks@[3] {
                    Some(c) => Some(*c),
                    None => None,
                }));
                assert(dchunks[4] == (match chunks@[4] {
                    Some(c) => Some(*c),
                    None => None,
                }));
                assert(dchunks[5] == (match chunks@[5] {
                    Some(c) => Some(*c),
                    None => None,
                }));
                assert(dchunks[6] == (match chunks@[6] {
                    Some(c) => Some(*c),
                    None => None,
                }));
            }
            samples.push(v);
            i += 1;
        }
        let r = MeshingChunk { samples };
        proof {
            assert forall|px: int, py: int, pz: int|
                0 <= px < 34 && 0 <= py < 34 && 0 <= pz < 34 implies #[trigger] r.sample(px, py, pz)
                == border_sample(dchunks, px, py, pz) by {
                let j = sample_index(px, py, pz);
                lemma_sample_linearize(px, py, pz);
                assert(r.samples@[j] == border_sample(dchunks, j % 34, (j / 34) % 34, j / 1156));
            }
        }
        r
    }
}

/// Decoding a linear sample index yields in-range coordinates that re-encode
/// to the same index.
proof fn lemma_sample_delinearize(i: int)
    requires
        0 <= i < MESH_VOLUME as int,
    ensures
        0 <= i % 34 < 34,
        0 <= (i / 34) % 34 < 34,
        0 <= i / 1156 < 34,
        sample_index(i % 34, (i / 34) % 34, i / 1156) == i,
{
    vstd::arithmetic::div_mod::lemma_fundamental_div_mod(i, 34);
    vstd::arithmetic::div_mod::lemma_fundamental_div_mod(i / 34, 34);
    vstd::arithmetic::div_mod::lemma_div_denominator(i, 34, 34);
    assert(0 <= i % 34 < 34) by {
        vstd::arithmetic::div_mod::lemma_remainder_upper(i, 34);
        vstd::arithmetic::div_mod::lemma_remainder_lower(i, 34);
    }
    assert(0 <= (i / 34) % 34 < 34) by {
        vstd::arithmetic::div_mod::lemma_remainder_upper(i / 34, 34);
        vstd::arithmetic::div_mod::lemma_remainder_lower(i / 34, 34);
    }
    assert(0 <= i / 1156 < 34) by {
        vstd::arithmetic::div_mod::lemma_div_pos_is_pos(i, 1156);
        vstd::arithmetic::div_mod::lemma_multiply_divide_lt(i, 1156, 34);
    }
}

/// Encoding padded coordinates decodes to the same coordinates.
proof fn lemma_sample_linearize(x: int, y: int, z: int)
    requires
        0 <= x < 34,
        0 <= y < 34,
        0 <= z < 34,
    ensures
        sample_index(x, y, z) % 34 == x,
        (sample_index(x, y, z) / 34) % 34 == y,
        sample_index(x, y, z) / 1156 == z,
        0 <= sample_index(x, y, z) < MESH_VOLUME as int,
{
    let i = sample_index(x, y, z);
    assert(i == x + 34 * (y + 34 * z));
    assert(i % 34 == x && i / 34 == y + 34 * z) by {
        vstd::arithmetic::div_mod::lemma_fundamental_div_mod_converse(i, 34, y + 34 * z, x);
    }
    assert((y + 34 * z) % 34 == y && (y + 34 * z) / 34 == z) by {
        vstd::arithmetic::div_mod::lemma_fundamental_div_mod_converse(y + 34 * z, 34, z, y);
    }
    assert(i / 1156 == z) by {
        vstd::arithmetic::div_mod::lemma_div_denominator(i, 34, 34);
    }
}

} // verus!

//! A chunk: a 32-by-32-by-32 cube of voxels, stored as 32 x 32
//! run-compressed rows addressed along the x axis, plus the signed grid
//! coordinate type that identifies a chunk's place in the world.

use vstd::prelude::*;

use crate::row::{Row, CHUNK_SIZE};
use crate::voxel::{Voxel, EMPTY_MATERIAL, FULL_MATERIAL};

verus! {

/// The number of rows in a chunk: one per (y, z) pair.
pub const CHUNK_AREA: usize = 32 * 32;

/// The number of voxels in a chunk.
pub const CHUNK_VOLUME: usize = 32 * 32 * 32;

/// The linear index of local coordinates, x varying fastest.
pub open spec fn linear_index(x: int, y: int, z: int) -> int {
    x + 32 * y + 1024 * z
}

/// The x coordinate encoded in a linear index.
pub open spec fn index_x(i: int) -> int {
    i % 32
}

/// The y coordinate encoded in a linear index.
pub open spec fn index_y(i: int) -> int {
    (i / 32) % 32
}

/// The z coordinate encoded in a linear index.
pub open spec fn index_z(i: int) -> int {
    i / 1024
}

/// Maps local coordinates to their linear index.
pub fn linearize(x: usize, y: usize, z: usize) -> (i: usize)
    requires
        x < CHUNK_SIZE,
        y < CHUNK_SIZE,
        z < CHUNK_SIZE,
    ensures
        i == linear_index(x as int, y as int, z as int),
        i < CHUNK_VOLUME,
{
    x + 32 * y + 1024 * z
}

/// Maps a linear index back to local coordinates.
pub fn delinearize(i: usize) -> (c: (usize, usize, usize))
    requires
        i < CHUNK_VOLUME,
    ensures
        c.0 < CHUNK_SIZE && c.1 < CHUNK_SIZE && c.2 < CHUNK_SIZE,
        c.0 == index_x(i as int) && c.1 == index_y(i as int) && c.2 == index_z(i as int),
        linear_index(c.0 as int, c.1 as int, c.2 as int) == i as int,
{
    let x = i % 32;
    let rest = i / 32;
    let y = rest % 32;
    let z = rest / 32;
    proof {
        lemma_delinearize_inverse(i as int);
        assert(index_z(i as int) == (i as int / 32) / 32) by {
            vstd::arithmetic::div_mod::lemma_div_denominator(i as int, 32, 32);
        }
    }
    (x, y, z)
}

/// `linearize` and `delinearize` are exact inverses over `[0, 32^3)`:
/// decoding a linear index re-encodes to the same index.
pub proof fn lemma_delinearize_inverse(i: int)
    requires
        0 <= i < CHUNK_VOLUME as int,
    ensures
        0 <= index_x(i) < 32 && 0 <= index_y(i) < 32 && 0 <= index_z(i) < 32,
        linear_index(index_x(i), index_y(i), index_z(i)) == i,
{
    vstd::arithmetic::div_mod::lemma_fundamental_div_mod(i, 32);
    vstd::arithmetic::div_mod::lemma_fundamental_div_mod(i / 32, 32);
    vstd::arithmetic::div_mod::lemma_div_denominator(i, 32, 32);
    assert(0 <= i % 32 < 32) by {
        vstd::arithmetic::div_mod::lemma_remainder_upper(i, 32);
        vstd::arithmetic::div_mod::lemma_remainder_lower(i, 32);
    }
    assert(0 <= (i / 32) % 32 < 32) by {
        vstd::arithmetic::div_mod::lemma_remainder_upper(i / 32, 32);
        vstd::arithmetic::div_mod::lemma_remainder_lower(i / 32, 32);
    }
    assert(0 <= i / 1024 < 32) by {
        vstd::arithmetic::div_mod::lemma_div_pos_is_pos(i, 1024);
        vstd::arithmetic::div_mod::lemma_multiply_divide_lt(i, 1024, 32);
    }
}

/// `delinearize` and `linearize` are exact inverses over the coordinate
/// cube: encoding coordinates decodes to the same coordinates.
pub proof fn lemma_linearize_inverse(x: int, y: int, z: int)
    requires
        0 <= x < 32,
        0 <= y < 32,
        0 <= z < 32,
    ensures
        index_x(linear_index(x, y, z)) == x,
        index_y(linear_index(x, y, z)) == y,
        index_z(linear_index(x, y, z)) == z,
{
    let i = linear_index(x, y, z);
    assert(i == x + 32 * (y + 32 * z));
    assert(i % 32 == x && i / 32 == y + 32 * z) by {
        vstd::arithmetic::div_mod::lemma_fundamental_div_mod_converse(i, 32, y + 32 * z, x);
    }
    assert((y + 32 * z) % 32 == y && (y + 32 * z) / 32 == z) by {
        vstd::arithmetic::div_mod::lemma_fundamental_div_mod_converse(y + 32 * z, 32, z, y);
    }
    assert(i / 1024 == z) by {
        vstd::arithmetic::div_mod::lemma_div_denominator(i, 32, 32);
    }
}

/// A cube of 32 x 32 x 32 voxels, stored as one run-compressed row per
/// (y, z) pair, each row running along the x axis. A chunk owns its voxel
/// data exclusively; no voxel is shared across chunks.
pub struct Chunk {
    pub rows: Vec<Row>,
}

impl Chunk {
    /// The storage invariant: one well-formed row per (y, z) pair.
    pub open spec fn wf(self) -> bool {
        &&& self.rows@.len() == CHUNK_AREA as int
        &&& forall|r: int|
            0 <= r < CHUNK_AREA as int ==> (#[trigger] self.rows@[r]).wf() && self.rows@[r]@.len()
                == CHUNK_SIZE as int
    }

    /// The voxel held at local coordinates (x, y, z).
    pub open spec fn vox(self, x: int, y: int, z: int) -> Voxel {
        self.rows@[y + 32 * z]@[x]
    }

    /// A chunk of entirely empty voxels.
    pub fn new() -> (c: Chunk)
        ensures
            c.wf(),
            forall|x: int, y: int, z: int|
                0 <= x < 32 && 0 <= y < 32 && 0 <= z < 32 ==> (#[trigger] c.vox(x, y, z)).0
                    == EMPTY_MATERIAL,
    {
        let mut rows: Vec<Row> = Vec::with_capacity(CHUNK_AREA);
        let mut r: usize = 0;
        while r < CHUNK_AREA
            invariant
                r <= CHUNK_AREA,
                rows@.len() == r as int,
                forall|k: int|
                    0 <= k < r as int ==> (#[trigger] rows@[k]).wf() && rows@[k]@.len()
                        == CHUNK_SIZE as int && forall|x: int|
                        0 <= x < 32 ==> rows@[k]@[x].0 == EMPTY_MATERIAL,
            decreases CHUNK_AREA - r,
        {
            rows.push(Row::new(Voxel::empty()));
            r += 1;
        }
        Chunk { rows }
    }

    /// Reads the voxel at local coordinates (x, y, z).
    pub fn get(&self, x: usize, y: usize, z: usize) -> (v: Voxel)
        requires
            self.wf(),
            x < CHUNK_SIZE,
            y < CHUNK_SIZE,
            z < CHUNK_SIZE,
        ensures
            v == self.vox(x as int, y as int, z as int),
    {
        self.rows[y + 32 * z].get(x)
    }

    /// Writes `voxel` at local coordinates (x, y, z), leaving every other
    /// position unchanged.
    pub fn put(&mut self, x: usize, y: usize, z: usize, voxel: Voxel)
        requires
            old(self).wf(),
            x < CHUNK_SIZE,
            y < CHUNK_SIZE,
            z < CHUNK_SIZE,
        ensures
            final(self).wf(),
            final(self).vox(x as int, y as int, z as int) == voxel,
            forall|x2: int, y2: int, z2: int|
                0 <= x2 < 32 && 0 <= y2 < 32 && 0 <= z2 < 32 && !(x2 == x as int && y2 == y as int
                    && z2 == z as int) ==> final(self).vox(x2, y2, z2) == old(self).vox(x2, y2, z2),
    {
        let r = y + 32 * z;
        let row = &mut self.rows[r];
        row.put(x, voxel);
        proof {
            assert(forall|y2: int, z2: int|
                0 <= y2 < 32 && 0 <= z2 < 32 && #[trigger] (y2 + 32 * z2) != r as int
                    ==> self.rows@[y2 + 32 * z2] == old(self).rows@[y2 + 32 * z2]);
            assert(forall|y2: int, z2: int|
                0 <= y2 < 32 && 0 <= z2 < 32 && (y2 != y as int || z2 != z as int) ==> #[trigger] (
                y2 + 32 * z2) != r as int) by {
                lemma_row_index_injective();
            }
        }
    }
}

/// A chunk whose every voxel is a value the generator admits for that
/// position: the postcondition of `Chunk::generate`.
pub open spec fn generated_by<F: Fn(usize, usize, usize) -> Voxel>(c: Chunk, generator: F) -> bool {
    &&& c.wf()
    &&& forall|x: usize, y: usize, z: usize|
        x < 32 && y < 32 && z < 32 ==> call_ensures(
            generator,
            (x, y, z),
            #[trigger] c.vox(x as int, y as int, z as int),
        )
}

/// What the built-in terrain generator may place at height `y`: solid ground
/// below the base height, air above the jittered surface band, and one of
/// the two in between.
pub open spec fn terrain_voxel_ok(y: int, v: Voxel) -> bool {
    &&& y < 6 ==> v.0 == FULL_MATERIAL
    &&& y >= 8 ==> v.0 == EMPTY_MATERIAL
    &&& v.0 == FULL_MATERIAL || v.0 == EMPTY_MATERIAL
}

impl Chunk {
    /// Fills a chunk by sampling a density predicate at every local
    /// coordinate. The generator is pure from the scheduler's point of view:
    /// the task that runs it captures no shared mutable state.
    pub fn generate<F: Fn(usize, usize, usize) -> Voxel>(generator: &F) -> (c: Chunk)
        requires
            forall|x: usize, y: usize, z: usize|
                x < 32 && y < 32 && z < 32 ==> #[trigger] call_requires(*generator, (x, y, z)),
        ensures
            generated_by(c, *generator),
    {
        let mut rows: Vec<Row> = Vec::with_capacity(CHUNK_AREA);
        let mut z: usize = 0;
        while z < CHUNK_SIZE
            invariant
                z <= CHUNK_SIZE,
                rows@.len() == 32 * z as int,
                forall|x: usize, y: usize, z2: usize|
                    x < 32 && y < 32 && z2 < z ==> call_ensures(
                        *generator,
                        (x, y, z2),
                        #[trigger] row_vox(rows@, x as int, y as int, z2 as int),
                    ),
                forall|k: int|
                    0 <= k < rows@.len() ==> (#[trigger] rows@[k]).wf() && rows@[k]@.len()
                        == CHUNK_SIZE as int,
                forall|x: usize, y: usize, z2: usize|
                    x < 32 && y < 32 && z2 < 32 ==> call_requires(*generator, (x, y, z2)),
            decreases CHUNK_SIZE - z,
        {
            let mut y: usize = 0;
            while y < CHUNK_SIZE
                invariant
                    y <= CHUNK_SIZE,
                    z < CHUNK_SIZE,
                    rows@.len() == 32 * z as int + y as int,
                    forall|x: usize, y2: usize, z2: usize|
                        x < 32 && ((z2 < z && y2 < 32) || (z2 == z && y2 < y)) ==> call_ensures(
                            *generator,
                            (x, y2, z2),
                            #[trigger] row_vox(rows@, x as int, y2 as int, z2 as int),
                        ),
                    forall|k: int|
                        0 <= k < rows@.len() ==> (#[trigger] rows@[k]).wf() && rows@[k]@.len()
                            == CHUNK_SIZE as int,
                    forall|x: usize, y2: usize, z2: usize|
                        x < 32 && y2 < 32 && z2 < 32 ==> call_requires(*generator, (x, y2, z2)),
                decreases CHUNK_SIZE - y,
            {
                let mut vals: Vec<Voxel> = Vec::with_capacity(CHUNK_SIZE);
                let mut x: usize = 0;
                while x < CHUNK_SIZE
                    invariant
                        x <= CHUNK_SIZE,
                        y < CHUNK_SIZE,
                        z < CHUNK_SIZE,
                        vals@.len() == x as int,
                        forall|j: usize|
                            j < x ==> call_ensures(*generator, (j, y, z), #[trigger] vals@[j as int]),
                        forall|x2: usize, y2: usize, z2: usize|
                            x2 < 32 && y2 < 32 && z2 < 32 ==> call_requires(
                                *generator,
                                (x2, y2, z2),
                            ),
                    decreases CHUNK_SIZE - x,
                {
                    vals.push(generator(x, y, z));
                    x += 1;
                }
                let ghost rows0 = rows@;
                let ghost vals0 = vals@;
                rows.push(Row::from_values(vals));
                proof {
                    assert forall|x: usize, y2: usize, z2: usize|
                        x < 32 && ((z2 < z && y2 < 32) || (z2 == z && y2 <= y)) implies call_ensures(
                        *generator,
                        (x, y2, z2),
                        #[trigger] row_vox(rows@, x as int, y2 as int, z2 as int),
                    ) by {
                        let idx = y2 as int + 32 * (z2 as int);
                        if z2 == z && y2 == y {
                            assert(idx == rows0.len());
                            assert(rows@[idx]@ == vals0);
                        } else {
                            assert(0 <= idx < rows0.len());
                            assert(rows@[idx] == rows0[idx]);
                            assert(row_vox(rows0, x as int, y2 as int, z2 as int) == rows0[idx]@[x as int]);
                        }
                    }
                }
                y += 1;
            }
            z += 1;
        }
        let c = Chunk { rows };
        proof {
            assert forall|x: usize, y: usize, z2: usize| x < 32 && y < 32 && z2 < 32 implies call_ensures(
                *generator,
                (x, y, z2),
                #[trigger] c.vox(x as int, y as int, z2 as int),
            ) by {
                assert(c.vox(x as int, y as int, z2 as int) == row_vox(
                    c.rows@,
                    x as int,
                    y as int,
                    z2 as int,
                ));
            }
        }
        c
    }

    /// Fills a chunk with the built-in rolling terrain: every column is
    /// solid up to a height of 6 plus a per-voxel random jitter below 3.
    pub fn generate_terrain() -> (c: Chunk)
        ensures
            c.wf(),
            forall|x: int, y: int, z: int|
                0 <= x < 32 && 0 <= y < 32 && 0 <= z < 32 ==> terrain_voxel_ok(
                    y,
                    #[trigger] c.vox(x, y, z),
                ),
    {
        let mut rows: Vec<Row> = Vec::with_capacity(CHUNK_AREA);
        let mut r: usize = 0;
        while r < CHUNK_AREA
            invariant
                r <= CHUNK_AREA,
                rows@.len() == r as int,
                forall|k: int|
                    0 <= k < r as int ==> (#[trigger] rows@[k]).wf() && rows@[k]@.len()
                        == CHUNK_SIZE as int && forall|x: int|
                        0 <= x < 32 ==> terrain_voxel_ok(k % 32, rows@[k]@[x]),
            decreases CHUNK_AREA - r,
        {
            let y = r % 32;
            let mut vals: Vec<Voxel> = Vec::with_capacity(CHUNK_SIZE);
            let mut x: usize = 0;
            while x < CHUNK_SIZE
                invariant
                    x <= CHUNK_SIZE,
                    y == r as int % 32,
                    0 <= r as int % 32 < 32,
                    vals@.len() == x as int,
                    forall|j: int| 0 <= j < x as int ==> terrain_voxel_ok(y as int, #[trigger] vals@[j]),
                decreases CHUNK_SIZE - x,
            {
                let jitter = height_jitter();
                let surface = (6 + jitter) as usize;
                if y < surface {
                    vals.push(Voxel::full());
                } else {
                    vals.push(Voxel::empty());
                }
                x += 1;
            }
            rows.push(Row::from_values(vals));
            r += 1;
        }
        let c = Chunk { rows };
        proof {
            assert forall|x: int, y: int, z: int|
                0 <= x < 32 && 0 <= y < 32 && 0 <= z < 32 implies terrain_voxel_ok(
                y,
                #[trigger] c.vox(x, y, z),
            ) by {
                assert((y + 32 * z) % 32 == y) by {
                    vstd::arithmetic::div_mod::lemma_fundamental_div_mod_converse(
                        y + 32 * z,
                        32,
                        z,
                        y,
                    );
                }
                assert(c.vox(x, y, z) == c.rows@[y + 32 * z]@[x]);
            }
        }
        c
    }
}

/// The voxel a row list holds at local coordinates (x, y, z); the chunk
/// view, stated before the rows are wrapped in a `Chunk`.
pub open spec fn row_vox(rows: Seq<Row>, x: int, y: int, z: int) -> Voxel {
    rows[y + 32 * z]@[x]
}

/// For a deterministic generator, regeneration reproduces the same content:
/// any two chunks that `Chunk::generate` may return for one generator hold
/// equal voxels at every position, so a despawned coordinate that is
/// re-requested gets back exactly the content it first had.
pub proof fn lemma_generation_deterministic<F: Fn(usize, usize, usize) -> Voxel>(
    generator: F,
    c1: Chunk,
    c2: Chunk,
)
    requires
        forall|a: (usize, usize, usize), v1: Voxel, v2: Voxel|
            #[trigger] call_ensures(generator, a, v1) && #[trigger] call_ensures(generator, a, v2)
                ==> v1 == v2,
        generated_by(c1, generator),
        generated_by(c2, generator),
    ensures
        forall|x: int, y: int, z: int|
            0 <= x < 32 && 0 <= y < 32 && 0 <= z < 32 ==> #[trigger] c1.vox(x, y, z)
                == #[trigger] c2.vox(x, y, z),
{
    assert forall|x: int, y: int, z: int|
        0 <= x < 32 && 0 <= y < 32 && 0 <= z < 32 implies #[trigger] c1.vox(x, y, z)
        == #[trigger] c2.vox(x, y, z) by {
        let xu = x as usize;
        let yu = y as usize;
        let zu = z as usize;
        assert(call_ensures(generator, (xu, yu, zu), c1.vox(x, y, z)));
        assert(call_ensures(generator, (xu, yu, zu), c2.vox(x, y, z)));
    }
}

/// Relies on rand's `Rng::gen_range` over the constant range `0..3`: it
/// panics only on an empty range and returns a value drawn from the range.
#[verifier::external_body]
fn height_jitter() -> (r: u32)
    ensures
        r < 3,
{
    rand::Rng::gen_range(&mut rand::thread_rng(), 0..3)
}

/// Distinct (y, z) pairs map to distinct row indices.
proof fn lemma_row_index_injective()
    ensures
        forall|y1: int, z1: int, y2: int, z2: int|
            0 <= y1 < 32 && 0 <= z1 < 32 && 0 <= y2 < 32 && 0 <= z2 < 32 && #[trigger] (y1 + 32
                * z1) == #[trigger] (y2 + 32 * z2) ==> y1 == y2 && z1 == z2,
{
}

/// A chunk's signed position in chunk-grid space (not world units); the key
/// of the world index, and the unit the view radius is measured in.
#[derive(Debug, Clone, Copy, PartialEq, Eq, Structural, Hash)]
pub struct ChunkPosition {
    pub x: i32,
    pub y: i32,
    pub z: i32,
}

impl ChunkPosition {
    /// True when any axis of `self` exceeds the corresponding axis of
    /// `bounds` in absolute value.
    pub open spec fn exceeds_bounds_spec(self, bounds: ChunkPosition) -> bool {
        ||| vstd::math::abs(self.x as int) > bounds.x as int
        ||| vstd::math::abs(self.y as int) > bounds.y as int
        ||| vstd::math::abs(self.z as int) > bounds.z as int
    }

    /// True when the position lies outside the world bounds: some axis
    /// magnitude exceeds the bound configured for that axis.
    pub fn exceeds_bounds(&self, bounds: ChunkPosition) -> (r: bool)
        ensures
            r == self.exceeds_bounds_spec(bounds),
    {
        abs_i64(self.x as i64) > bounds.x as i64 || abs_i64(self.y as i64) > bounds.y as i64
            || abs_i64(self.z as i64) > bounds.z as i64
    }
}

/// The absolute value of a 32-bit quantity, computed without overflow.
fn abs_i64(v: i64) -> (r: i64)
    requires
        i32::MIN as i64 <= v <= i32::MAX as i64,
    ensures
        r == vstd::math::abs(v as int),
{
    if v >= 0 {
        v
    } else {
        -v
    }
}

} // verus!

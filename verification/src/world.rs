//! The generation/meshing scheduler. One control loop owns the world index
//! and drives each coordinate through `Unloaded -> Generating -> Generated ->
//! Meshing -> Meshed`, and back to `Unloaded` on despawn. Generation and
//! meshing work runs outside as independent tasks on owned snapshots; the
//! loop dispatches tasks, applies whichever results have completed, and
//! discards results whose coordinate no longer expects them.

use vstd::prelude::*;

use crate::chunk::{Chunk, ChunkPosition};
use crate::map::{ChunkSlot, MeshHandle, VoxelMap, VoxelMapSettings};
use crate::meshing_chunk::{border_sample, opt_wf, MeshingChunk};
use crate::voxel::Voxel;

verus! {

/// The world: the index of chunk slots, owned and mutated only by the
/// scheduler's control loop.
pub struct World {
    pub map: VoxelMap,
}

/// Whether every chunk a world stores satisfies the chunk invariant.
pub open spec fn slot_chunk_wf(s: ChunkSlot) -> bool {
    match s.chunk() {
        Some(c) => c.wf(),
        None => true,
    }
}

/// A coordinate triple as mathematical integers, for positions one step
/// outside the signed 32-bit range of `ChunkPosition`.
pub open spec fn int_in_bounds(w: World, x: int, y: int, z: int) -> bool {
    &&& vstd::math::abs(x) <= w.map.settings.bounds.x as int
    &&& vstd::math::abs(y) <= w.map.settings.bounds.y as int
    &&& vstd::math::abs(z) <= w.map.settings.bounds.z as int
}

/// The chunk position of an in-range integer triple.
pub open spec fn pos_from(x: int, y: int, z: int) -> ChunkPosition {
    ChunkPosition { x: x as i32, y: y as i32, z: z as i32 }
}

/// The slot state at an integer triple: `Unloaded` when out of bounds.
pub open spec fn state_at(w: World, x: int, y: int, z: int) -> ChunkSlot {
    if int_in_bounds(w, x, y, z) {
        w.map.state_of(pos_from(x, y, z))
    } else {
        ChunkSlot::Unloaded
    }
}

impl World {
    /// The scheduler invariant: a well-formed index whose stored chunks all
    /// satisfy the chunk invariant.
    pub open spec fn wf(self) -> bool {
        &&& self.map.wf()
        &&& forall|c: ChunkPosition| slot_chunk_wf(#[trigger] self.map.state_of(c))
    }

    /// The slot state of a coordinate.
    pub open spec fn state_of(self, c: ChunkPosition) -> ChunkSlot {
        self.map.state_of(c)
    }

    /// An empty world with the given settings: every coordinate `Unloaded`.
    pub fn new(settings: VoxelMapSettings) -> (w: World)
        ensures
            w.wf(),
            w.map.settings == settings,
            forall|c: ChunkPosition| #[trigger] w.state_of(c) is Unloaded,
    {
        let w = World { map: VoxelMap::new(settings) };
        proof {
            assert forall|c: ChunkPosition| slot_chunk_wf(#[trigger] w.map.state_of(c)) by {
                assert(w.map.state_of(c) is Unloaded);
            }
        }
        w
    }

    /// Adds a direction vector to a position, in 64-bit space, and returns
    /// the sum only when it lies inside the world bounds; a step outside the
    /// bounds is nothing to do.
    pub fn bounded_add(&self, pos: ChunkPosition, add: ChunkPosition) -> (r: Option<ChunkPosition>)
        ensures
            (r is Some) == int_in_bounds(
                *self,
                pos.x as int + add.x as int,
                pos.y as int + add.y as int,
                pos.z as int + add.z as int,
            ),
            r is Some ==> r->0 == pos_from(
                pos.x as int + add.x as int,
                pos.y as int + add.y as int,
                pos.z as int + add.z as int,
            ) && self.map.in_bounds(r->0),
    {
        let x = pos.x as i64 + add.x as i64;
        let y = pos.y as i64 + add.y as i64;
        let z = pos.z as i64 + add.z as i64;
        let b = self.map.settings.bounds;
        if abs_sum(x) <= b.x as i64 && abs_sum(y) <= b.y as i64 && abs_sum(z) <= b.z as i64 {
            Some(ChunkPosition { x: x as i32, y: y as i32, z: z as i32 })
        } else {
            None
        }
    }
}

/// The chunk-grid coordinate containing a world-space position: the floor of
/// the position divided by the chunk side length.
pub open spec fn chunk_axis_of(p: int) -> int {
    p / 32
}

/// The world-space position of a chunk-grid coordinate: the coordinate times
/// the chunk side length, the corner cell of the chunk.
pub open spec fn world_axis_of(c: int) -> int {
    32 * c
}

impl World {
    /// The chunk-grid coordinate containing a world-space position:
    /// floor-divides each axis by the chunk side length, so that every
    /// position, negative axes included, falls in exactly one chunk.
    pub fn chunk_pos(world_position: (i64, i64, i64)) -> (c: ChunkPosition)
        requires
            -68719476736i64 <= world_position.0 <= 68719476735i64,
            -68719476736i64 <= world_position.1 <= 68719476735i64,
            -68719476736i64 <= world_position.2 <= 68719476735i64,
        ensures
            c.x as int == chunk_axis_of(world_position.0 as int),
            c.y as int == chunk_axis_of(world_position.1 as int),
            c.z as int == chunk_axis_of(world_position.2 as int),
    {
        ChunkPosition {
            x: floor_div32(world_position.0) as i32,
            y: floor_div32(world_position.1) as i32,
            z: floor_div32(world_position.2) as i32,
        }
    }

    /// The world-space position of a chunk-grid coordinate: each axis times
    /// the chunk side length.
    pub fn world_position(chunk_pos: ChunkPosition) -> (p: (i64, i64, i64))
        ensures
            p.0 as int == world_axis_of(chunk_pos.x as int),
            p.1 as int == world_axis_of(chunk_pos.y as int),
            p.2 as int == world_axis_of(chunk_pos.z as int),
    {
        (32 * chunk_pos.x as i64, 32 * chunk_pos.y as i64, 32 * chunk_pos.z as i64)
    }
}

/// Converting a chunk coordinate to its world position and back returns the
/// same coordinate: `chunk_pos` is the left inverse of `world_position` on
/// cell boundaries, on every axis and for negative coordinates too.
pub proof fn lemma_position_round_trip(c: int)
    ensures
        chunk_axis_of(world_axis_of(c)) == c,
{
    vstd::arithmetic::div_mod::lemma_div_multiples_vanish(c, 32);
}

/// The floor of `v / 32`, computed without signed division.
fn floor_div32(v: i64) -> (q: i64)
    requires
        -68719476736i64 <= v <= 68719476735i64,
    ensures
        q == v as int / 32,
        -2147483648i64 <= q <= 2147483647i64,
{
    if v >= 0 {
        let q = ((v as u64) / 32) as i64;
        proof {
            assert(v as int == 32 * (q as int) + (v as int - 32 * (q as int)));
        }
        q
    } else {
        let m = (-v) as u64;
        let qm = ((m + 31) / 32) as i64;
        let q = -qm;
        proof {
            let mi = m as int;
            vstd::arithmetic::div_mod::lemma_fundamental_div_mod(mi + 31, 32);
            let r = (mi + 31) % 32;
            assert(0 <= r < 32) by {
                vstd::arithmetic::div_mod::lemma_remainder_upper(mi + 31, 32);
                vstd::arithmetic::div_mod::lemma_remainder_lower(mi + 31, 32);
            }
            assert(mi + 31 == 32 * (qm as int) + r);
            assert(32 * (q as int) <= v as int && (v as int) < 32 * (q as int) + 32);
            vstd::arithmetic::div_mod::lemma_fundamental_div_mod_converse(
                v as int,
                32,
                q as int,
                v as int - 32 * (q as int),
            );
        }
        q
    }
}

/// The absolute value of a small 64-bit sum.
fn abs_sum(v: i64) -> (r: i64)
    requires
        -0x1_0000_0000_0000i64 <= v <= 0x1_0000_0000_0000i64,
    ensures
        r == vstd::math::abs(v as int),
{
    if v >= 0 {
        v
    } else {
        -v
    }
}

/// What one generation request does: dispatched exactly when the in-bounds
/// coordinate is `Unloaded`, in which case its slot becomes `Generating`;
/// every other coordinate is untouched.
pub open spec fn request_transition(
    pre: World,
    post: World,
    c: ChunkPosition,
    dispatched: bool,
) -> bool {
    &&& dispatched == (pre.map.in_bounds(c) && pre.state_of(c) is Unloaded)
    &&& (if dispatched {
        post.state_of(c) is Generating
    } else {
        post.state_of(c) == pre.state_of(c)
    })
    &&& forall|c2: ChunkPosition| c2 != c ==> #[trigger] post.state_of(c2) == pre.state_of(c2)
    &&& post.map.settings == pre.map.settings
}

/// What applying a finished generation does: accepted exactly when the
/// coordinate still awaits it (`Generating`), in which case the produced
/// chunk is stored; a stale result, for a coordinate despawned or never
/// requested, is discarded and changes nothing.
pub open spec fn generated_transition(
    pre: World,
    post: World,
    c: ChunkPosition,
    chunk: Chunk,
    accepted: bool,
) -> bool {
    &&& accepted == (pre.state_of(c) is Generating)
    &&& (if accepted {
        post.state_of(c) == ChunkSlot::Generated(chunk)
    } else {
        post.state_of(c) == pre.state_of(c)
    })
    &&& forall|c2: ChunkPosition| c2 != c ==> #[trigger] post.state_of(c2) == pre.state_of(c2)
    &&& post.map.settings == pre.map.settings
}

/// What applying a finished mesh does: accepted exactly when the coordinate
/// still awaits it (`Meshing`), in which case the slot keeps its chunk and
/// records the render handle; a stale result is discarded.
pub open spec fn meshed_transition(
    pre: World,
    post: World,
    c: ChunkPosition,
    handle: MeshHandle,
    accepted: bool,
) -> bool {
    &&& accepted == (pre.state_of(c) is Meshing)
    &&& (if accepted {
        post.state_of(c) == ChunkSlot::Meshed(pre.state_of(c)->Meshing_0, handle)
    } else {
        post.state_of(c) == pre.state_of(c)
    })
    &&& forall|c2: ChunkPosition| c2 != c ==> #[trigger] post.state_of(c2) == pre.state_of(c2)
    &&& post.map.settings == pre.map.settings
}

/// Whether a neighbor slot lets border sampling proceed: it must not be
/// mid-generation. An `Unloaded` neighbor samples as empty; the three states
/// that hold a chunk sample from it.
pub open spec fn slot_ready(s: ChunkSlot) -> bool {
    !(s is Generating)
}

/// Whether all six face neighbors of `c` are ready for border sampling;
/// out-of-bounds neighbors are ready, as an all-empty border.
pub open spec fn neighbors_ready(w: World, c: ChunkPosition) -> bool {
    let x = c.x as int;
    let y = c.y as int;
    let z = c.z as int;
    &&& slot_ready(state_at(w, x + 1, y, z))
    &&& slot_ready(state_at(w, x - 1, y, z))
    &&& slot_ready(state_at(w, x, y + 1, z))
    &&& slot_ready(state_at(w, x, y - 1, z))
    &&& slot_ready(state_at(w, x, y, z + 1))
    &&& slot_ready(state_at(w, x, y, z - 1))
}

/// The chunk available for border sampling at an integer triple: the stored
/// chunk if the slot holds one, and nothing outside the bounds.
pub open spec fn border_chunk_at(w: World, x: int, y: int, z: int) -> Option<Chunk> {
    state_at(w, x, y, z).chunk()
}

/// The chunk and its six face neighbors that one meshing task samples, in
/// the order of `Directions::all`.
pub open spec fn border_chunks(w: World, c: ChunkPosition) -> Seq<Option<Chunk>> {
    let x = c.x as int;
    let y = c.y as int;
    let z = c.z as int;
    seq![
        border_chunk_at(w, x, y, z),
        border_chunk_at(w, x + 1, y, z),
        border_chunk_at(w, x - 1, y, z),
        border_chunk_at(w, x, y + 1, z),
        border_chunk_at(w, x, y - 1, z),
        border_chunk_at(w, x, y, z + 1),
        border_chunk_at(w, x, y, z - 1),
    ]
}

/// What one meshing request does: dispatched exactly when the coordinate is
/// `Generated` and its neighbors are ready, in which case the slot moves to
/// `Meshing` (keeping its chunk) and the task receives a snapshot sampled
/// exactly as `border_sample` prescribes from the chunks the world held.
pub open spec fn mesh_request_transition(
    pre: World,
    post: World,
    c: ChunkPosition,
    r: Option<MeshingChunk>,
) -> bool {
    &&& (r is Some) == (pre.state_of(c) is Generated && neighbors_ready(pre, c))
    &&& (if r is Some {
        post.state_of(c) == ChunkSlot::Meshing(pre.state_of(c)->Generated_0)
    } else {
        post.state_of(c) == pre.state_of(c)
    })
    &&& (r matches Some(mc) ==> mc.wf() && forall|px: int, py: int, pz: int|
        0 <= px < 34 && 0 <= py < 34 && 0 <= pz < 34 ==> #[trigger] mc.sample(px, py, pz)
            == border_sample(border_chunks(pre, c), px, py, pz))
    &&& forall|c2: ChunkPosition| c2 != c ==> #[trigger] post.state_of(c2) == pre.state_of(c2)
    &&& post.map.settings == pre.map.settings
}

impl World {
    /// Requests generation of the chunk at `c`: if the in-bounds coordinate
    /// is `Unloaded`, marks it `Generating` and reports that a generation
    /// task must be dispatched. An out-of-bounds coordinate is silently
    /// skipped, and a coordinate already requested, generated or meshed is
    /// left alone: at most one task is ever outstanding per coordinate.
    pub fn request_chunk(&mut self, c: ChunkPosition) -> (dispatched: bool)
        requires
            old(self).wf(),
        ensures
            final(self).wf(),
            request_transition(*old(self), *final(self), c, dispatched),
    {
        if !self.map.check_in_bounds(c) {
            return false;
        }
        let unloaded = match self.map.get_slot(c) {
            None => true,
            Some(slot) => match slot {
                ChunkSlot::Unloaded => true,
                _ => false,
            },
        };
        if unloaded {
            self.map.set_slot(c, ChunkSlot::Generating);
            proof {
                lemma_slot_wf_frame(*old(self), *self, c);
            }
            true
        } else {
            false
        }
    }

    /// Applies a completed generation task's chunk: stores it if the
    /// coordinate is still `Generating`; a result for a coordinate that was
    /// despawned in the meantime is discarded rather than re-inserted.
    pub fn apply_generated(&mut self, c: ChunkPosition, chunk: Chunk) -> (accepted: bool)
        requires
            old(self).wf(),
            chunk.wf(),
        ensures
            final(self).wf(),
            generated_transition(*old(self), *final(self), c, chunk, accepted),
    {
        if !self.map.check_in_bounds(c) {
            proof {
                crate::map::lemma_untracked_when_out_of_bounds(self.map, c);
            }
            return false;
        }
        let generating = match self.map.get_slot(c) {
            Some(ChunkSlot::Generating) => true,
            _ => false,
        };
        if generating {
            self.map.set_slot(c, ChunkSlot::Generated(chunk));
            proof {
                lemma_slot_wf_frame(*old(self), *self, c);
            }
            true
        } else {
            false
        }
    }

    /// Whether the neighbor one step along `add` lets border sampling
    /// proceed.
    fn neighbor_ready(&self, c: ChunkPosition, add: ChunkPosition) -> (r: bool)
        requires
            self.wf(),
        ensures
            r == slot_ready(
                state_at(
                    *self,
                    c.x as int + add.x as int,
                    c.y as int + add.y as int,
                    c.z as int + add.z as int,
                ),
            ),
    {
        match self.bounded_add(c, add) {
            None => true,
            Some(n) => match self.map.get_slot(n) {
                None => true,
                Some(slot) => match slot {
                    ChunkSlot::Generating => false,
                    _ => true,
                },
            },
        }
    }

    /// The chunk available for sampling one step along `add`.
    fn neighbor_chunk(&self, c: ChunkPosition, add: ChunkPosition) -> (r: Option<&Chunk>)
        requires
            self.wf(),
        ensures
            (match r {
                Some(chunk) => Some(*chunk),
                None => None::<Chunk>,
            }) == border_chunk_at(
                *self,
                c.x as int + add.x as int,
                c.y as int + add.y as int,
                c.z as int + add.z as int,
            ),
    {
        match self.bounded_add(c, add) {
            None => None,
            Some(n) => self.map.get_chunk(n),
        }
    }

    /// Builds the meshing snapshot for the chunk at `c`: its own voxels
    /// padded by one voxel of border sampled from whichever face neighbors
    /// hold chunks, absent and out-of-bounds neighbors sampling as empty.
    pub fn get_meshing_chunk(&self, chunk_pos: ChunkPosition) -> (mc: MeshingChunk)
        requires
            self.wf(),
        ensures
            mc.wf(),
            forall|px: int, py: int, pz: int|
                0 <= px < 34 && 0 <= py < 34 && 0 <= pz < 34 ==> #[trigger] mc.sample(px, py, pz)
                    == border_sample(border_chunks(*self, chunk_pos), px, py, pz),
    {
        let c = chunk_pos;
        let center = match self.bounded_add(c, ChunkPosition { x: 0, y: 0, z: 0 }) {
            None => None,
            Some(n) => self.map.get_chunk(n),
        };
        let xp = self.neighbor_chunk(c, ChunkPosition { x: 1, y: 0, z: 0 });
        let xn = self.neighbor_chunk(c, ChunkPosition { x: -1, y: 0, z: 0 });
        let yp = self.neighbor_chunk(c, ChunkPosition { x: 0, y: 1, z: 0 });
        let yn = self.neighbor_chunk(c, ChunkPosition { x: 0, y: -1, z: 0 });
        let zp = self.neighbor_chunk(c, ChunkPosition { x: 0, y: 0, z: 1 });
        let zn = self.neighbor_chunk(c, ChunkPosition { x: 0, y: 0, z: -1 });
        let chunks = [center, xp, xn, yp, yn, zp, zn];
        proof {
            assert forall|k: int| 0 <= k < 7 implies opt_wf(#[trigger] chunks@[k]) by {
                lemma_border_chunk_wf(*self, c);
            }
            assert(crate::meshing_chunk::deref_chunks(chunks@) =~= border_chunks(*self, c)) by {
                lemma_center_chunk(*self, c);
            }
        }
        MeshingChunk::new(chunks)
    }

    /// Requests meshing of the chunk at `c`. If `c` is `Generated` and no
    /// face neighbor is still mid-generation, marks `c` `Meshing` and
    /// returns the owned snapshot (chunk plus neighbor borders) for the
    /// meshing task; otherwise changes nothing and returns `None`: the
    /// coordinate is not ready, or a task is already outstanding.
    pub fn request_mesh(&mut self, c: ChunkPosition) -> (r: Option<MeshingChunk>)
        requires
            old(self).wf(),
        ensures
            final(self).wf(),
            mesh_request_transition(*old(self), *final(self), c, r),
    {
        if !self.map.check_in_bounds(c) {
            proof {
                crate::map::lemma_untracked_when_out_of_bounds(self.map, c);
            }
            return None;
        }
        let generated = match self.map.get_slot(c) {
            Some(ChunkSlot::Generated(_)) => true,
            _ => false,
        };
        if !generated {
            return None;
        }
        let ready = self.neighbor_ready(c, ChunkPosition { x: 1, y: 0, z: 0 })
            && self.neighbor_ready(c, ChunkPosition { x: -1, y: 0, z: 0 }) && self.neighbor_ready(
            c,
            ChunkPosition { x: 0, y: 1, z: 0 },
        ) && self.neighbor_ready(c, ChunkPosition { x: 0, y: -1, z: 0 }) && self.neighbor_ready(
            c,
            ChunkPosition { x: 0, y: 0, z: 1 },
        ) && self.neighbor_ready(c, ChunkPosition { x: 0, y: 0, z: -1 });
        if !ready {
            return None;
        }
        let mc = self.get_meshing_chunk(c);
        let prev = self.map.replace_slot(c, ChunkSlot::Unloaded);
        let chunk = match prev {
            ChunkSlot::Generated(chunk) => chunk,
            _ => vstd::pervasive::unreached(),
        };
        self.map.replace_slot(c, ChunkSlot::Meshing(chunk));
        proof {
            lemma_slot_wf_frame(*old(self), *self, c);
        }
        Some(mc)
    }

    /// Applies a completed meshing task's render handle: records it if the
    /// coordinate is still `Meshing`; a stale result is discarded, and its
    /// handle reported back so the caller can release the render mesh.
    pub fn apply_meshed(&mut self, c: ChunkPosition, handle: MeshHandle) -> (accepted: bool)
        requires
            old(self).wf(),
        ensures
            final(self).wf(),
            meshed_transition(*old(self), *final(self), c, handle, accepted),
    {
        if !self.map.check_in_bounds(c) {
            proof {
                crate::map::lemma_untracked_when_out_of_bounds(self.map, c);
            }
            return false;
        }
        let meshing = match self.map.get_slot(c) {
            Some(ChunkSlot::Meshing(_)) => true,
            _ => false,
        };
        if !meshing {
            return false;
        }
        let prev = self.map.replace_slot(c, ChunkSlot::Unloaded);
        let chunk = match prev {
            ChunkSlot::Meshing(chunk) => chunk,
            _ => vstd::pervasive::unreached(),
        };
        self.map.replace_slot(c, ChunkSlot::Meshed(chunk, handle));
        proof {
            lemma_slot_wf_frame(*old(self), *self, c);
        }
        true
    }

    /// Despawns the coordinate: reverts its slot to `Unloaded`, freeing the
    /// chunk and mesh data, and returns the mesh handle to remove from the
    /// renderer if one was stored. An in-flight task for the coordinate is
    /// not cancelled; its result will arrive stale and be discarded.
    pub fn despawn(&mut self, c: ChunkPosition) -> (r: Option<MeshHandle>)
        requires
            old(self).wf(),
        ensures
            final(self).wf(),
            final(self).state_of(c) is Unloaded,
            forall|c2: ChunkPosition|
                c2 != c ==> #[trigger] final(self).state_of(c2) == old(self).state_of(c2),
            final(self).map.settings == old(self).map.settings,
            r == (match old(self).state_of(c) {
                ChunkSlot::Meshed(_, handle) => Some(handle),
                _ => None,
            }),
    {
        let r = self.map.remove_slot(c);
        proof {
            lemma_slot_wf_frame(*old(self), *self, c);
        }
        r
    }
}

/// A slot change at one coordinate keeps every stored chunk well-formed,
/// provided the new slot's chunk (if any) is.
proof fn lemma_slot_wf_frame(pre: World, post: World, c: ChunkPosition)
    requires
        forall|c2: ChunkPosition| slot_chunk_wf(#[trigger] pre.map.state_of(c2)),
        forall|c2: ChunkPosition| c2 != c ==> #[trigger] post.map.state_of(c2) == pre.map.state_of(c2),
        slot_chunk_wf(post.map.state_of(c)),
    ensures
        forall|c2: ChunkPosition| slot_chunk_wf(#[trigger] post.map.state_of(c2)),
{
    assert forall|c2: ChunkPosition| slot_chunk_wf(#[trigger] post.map.state_of(c2)) by {
        if c2 != c {
            assert(post.map.state_of(c2) == pre.map.state_of(c2));
        }
    }
}

/// Every chunk that border sampling may read is well-formed.
proof fn lemma_border_chunk_wf(w: World, c: ChunkPosition)
    requires
        w.wf(),
    ensures
        forall|x: int, y: int, z: int|
            (#[trigger] border_chunk_at(w, x, y, z)) is Some ==> border_chunk_at(
                w,
                x,
                y,
                z,
            )->0.wf(),
{
    assert forall|x: int, y: int, z: int|
        (#[trigger] border_chunk_at(w, x, y, z)) is Some implies border_chunk_at(
        w,
        x,
        y,
        z,
    )->0.wf() by {
        if int_in_bounds(w, x, y, z) {
            assert(slot_chunk_wf(w.map.state_of(pos_from(x, y, z))));
        }
    }
}

/// The center entry of the border chunk list is the chunk's own slot: a
/// coordinate is in bounds exactly when its own zero-offset step is.
proof fn lemma_center_chunk(w: World, c: ChunkPosition)
    ensures
        state_at(w, c.x as int, c.y as int, c.z as int) == (if w.map.in_bounds(c) {
            w.map.state_of(c)
        } else {
            ChunkSlot::Unloaded
        }),
        int_in_bounds(w, c.x as int, c.y as int, c.z as int) == w.map.in_bounds(c),
        pos_from(c.x as int, c.y as int, c.z as int) == c,
{
}

/// Whether the integer coordinate triple lies within `d` chunks of the
/// observer's chunk: the half-open cube the scheduler keeps loaded.
pub open spec fn in_view(observer: ChunkPosition, d: int, x: int, y: int, z: int) -> bool {
    &&& observer.x - d <= x < observer.x + d
    &&& observer.y - d <= y < observer.y + d
    &&& observer.z - d <= z < observer.z + d
}

/// The only change a spawn pass makes: a coordinate either keeps its state,
/// or moves from `Unloaded` to `Generating` because it is in view, in
/// bounds, and listed among the dispatched coordinates.
pub open spec fn spawn_allowed_change(
    w0: World,
    w1: World,
    ret: Seq<ChunkPosition>,
    observer: ChunkPosition,
    d: int,
) -> bool {
    forall|c2: ChunkPosition|
        #![trigger w1.state_of(c2)]
        w1.state_of(c2) == w0.state_of(c2) || (w0.state_of(c2) is Unloaded && w1.state_of(c2)
            is Generating && w0.map.in_bounds(c2) && in_view(
            observer,
            d,
            c2.x as int,
            c2.y as int,
            c2.z as int,
        ) && ret.contains(c2))
}

/// What a spawn pass guarantees for one cell of the view cube: an in-bounds
/// `Unloaded` cell is now `Generating` and was dispatched; any other cell is
/// untouched.
pub open spec fn cell_done(
    w0: World,
    w1: World,
    ret: Seq<ChunkPosition>,
    x: int,
    y: int,
    z: int,
) -> bool {
    if int_in_bounds(w0, x, y, z) && state_at(w0, x, y, z) is Unloaded {
        state_at(w1, x, y, z) is Generating && ret.contains(pos_from(x, y, z))
    } else {
        state_at(w1, x, y, z) == state_at(w0, x, y, z)
    }
}

/// The x coordinate of cell `t` of the view cube, x varying fastest.
pub open spec fn cell_x_of(observer: ChunkPosition, d: int, side: int, t: int) -> int {
    observer.x - d + t % side
}

/// The y coordinate of cell `t` of the view cube.
pub open spec fn cell_y_of(observer: ChunkPosition, d: int, side: int, t: int) -> int {
    observer.y - d + (t / side) % side
}

/// The z coordinate of cell `t` of the view cube.
pub open spec fn cell_z_of(observer: ChunkPosition, d: int, side: int, t: int) -> int {
    observer.z - d + t / (side * side)
}

/// A value a sequence contains is still contained after a push.
proof fn lemma_contains_push<A>(s: Seq<A>, v: A, w: A)
    requires
        s.contains(v),
    ensures
        s.push(w).contains(v),
{
    let i = choose|i: int| 0 <= i < s.len() && s[i] == v;
    assert(s.push(w)[i] == v);
}

impl World {
    /// Whether the coordinate lies within `d` chunks of the observer.
    fn in_view_exec(observer: ChunkPosition, d: i32, c: ChunkPosition) -> (r: bool)
        requires
            0 <= d <= 256,
        ensures
            r == in_view(observer, d as int, c.x as int, c.y as int, c.z as int),
    {
        let ox = observer.x as i64;
        let oy = observer.y as i64;
        let oz = observer.z as i64;
        let di = d as i64;
        ox - di <= c.x as i64 && (c.x as i64) < ox + di && oy - di <= c.y as i64 && (c.y as i64)
            < oy + di && oz - di <= c.z as i64 && (c.z as i64) < oz + di
    }

    /// One spawn pass of the scheduling tick: walks the cube of coordinates
    /// within `view_distance` chunks of the observer's chunk and, for each
    /// in-bounds coordinate that is `Unloaded`, marks it `Generating` and
    /// lists it for dispatch, each such coordinate exactly once. Coordinates
    /// already requested, loaded, out of bounds or out of view are left
    /// alone.
    pub fn tick_spawn(&mut self, observer: ChunkPosition, view_distance: i32) -> (ret: Vec<
        ChunkPosition,
    >)
        requires
            old(self).wf(),
            0 <= view_distance <= 256,
        ensures
            final(self).wf(),
            final(self).map.settings == old(self).map.settings,
            spawn_allowed_change(
                *old(self),
                *final(self),
                ret@,
                observer,
                view_distance as int,
            ),
            forall|k: int|
                0 <= k < ret@.len() ==> {
                    let c = #[trigger] ret@[k];
                    &&& final(self).state_of(c) is Generating
                    &&& old(self).state_of(c) is Unloaded
                    &&& old(self).map.in_bounds(c)
                    &&& in_view(observer, view_distance as int, c.x as int, c.y as int, c.z as int)
                },
            forall|k1: int, k2: int| 0 <= k1 < k2 < ret@.len() ==> ret@[k1] != ret@[k2],
            forall|x: int, y: int, z: int|
                in_view(observer, view_distance as int, x, y, z) ==> #[trigger] cell_done(
                    *old(self),
                    *final(self),
                    ret@,
                    x,
                    y,
                    z,
                ),
    {
        let ghost w0 = *old(self);
        let ghost d = view_distance as int;
        if view_distance == 0 {
            let ret: Vec<ChunkPosition> = Vec::new();
            proof {
                assert forall|x: int, y: int, z: int|
                    in_view(observer, d, x, y, z) implies #[trigger] cell_done(
                    w0,
                    *self,
                    ret@,
                    x,
                    y,
                    z,
                ) by {
                    assert(false);
                }
            }
            return ret;
        }
        let side: usize = 2 * (view_distance as usize);
        proof {
            assert(side <= 512);
            assert(side * side <= 512 * 512) by (nonlinear_arith)
                requires
                    side <= 512,
            ;
        }
        let area: usize = side * side;
        proof {
            assert(area * side <= 262144 * 512) by (nonlinear_arith)
                requires
                    area <= 262144,
                    side <= 512,
            ;
        }
        let volume: usize = area * side;
        let mut ret: Vec<ChunkPosition> = Vec::new();
        let mut t: usize = 0;
        while t < volume
            invariant
                t <= volume,
                self.wf(),
                self.map.settings == w0.map.settings,
                side == 2 * d,
                area == side * side,
                volume == area * side,
                1 <= d <= 256,
                d == view_distance as int,
                spawn_allowed_change(w0, *self, ret@, observer, d),
                forall|k: int|
                    0 <= k < ret@.len() ==> {
                        let c = #[trigger] ret@[k];
                        &&& self.state_of(c) is Generating
                        &&& w0.state_of(c) is Unloaded
                        &&& w0.map.in_bounds(c)
                        &&& in_view(observer, d, c.x as int, c.y as int, c.z as int)
                    },
                forall|k1: int, k2: int| 0 <= k1 < k2 < ret@.len() ==> ret@[k1] != ret@[k2],
                forall|t2: int|
                    0 <= t2 < t as int ==> #[trigger] cell_done(
                        w0,
                        *self,
                        ret@,
                        cell_x_of(observer, d, side as int, t2),
                        cell_y_of(observer, d, side as int, t2),
                        cell_z_of(observer, d, side as int, t2),
                    ),
            decreases volume - t,
        {
            proof {
                assert(2 <= side <= 512);
                assert(0 < area && area == side as int * side as int) by (nonlinear_arith)
                    requires
                        1 <= side <= 512,
                        area == side * side,
                ;
            }
            let a = t % side;
            let b = (t / side) % side;
            let cz = t / area;
            proof {
                assert(cz == (t as int / side as int) / side as int) by {
                    vstd::arithmetic::div_mod::lemma_div_denominator(
                        t as int,
                        side as int,
                        side as int,
                    );
                }
                assert(0 <= t as int % (side as int) && t as int % (side as int) < (side as int)) by {
                    vstd::arithmetic::div_mod::lemma_remainder_upper(t as int, side as int);
                    vstd::arithmetic::div_mod::lemma_remainder_lower(t as int, side as int);
                }
                assert(0 <= (t as int / side as int) % (side as int) && (t as int / side as int) % (side as int) < (side as int)) by {
                    vstd::arithmetic::div_mod::lemma_remainder_upper(
                        t as int / side as int,
                        side as int,
                    );
                    vstd::arithmetic::div_mod::lemma_remainder_lower(
                        t as int / side as int,
                        side as int,
                    );
                }
                assert(0 <= t as int / (side as int * side as int) && t as int / (side as int * side as int) < (side as int)) by {
                    vstd::arithmetic::div_mod::lemma_div_pos_is_pos(
                        t as int,
                        side as int * side as int,
                    );
                    assert((t as int) < (side as int * side as int) * (side as int));
                    vstd::arithmetic::div_mod::lemma_multiply_divide_lt(
                        t as int,
                        side as int * side as int,
                        side as int,
                    );
                }
                assert(cell_z_of(observer, d, side as int, t as int) == observer.z - d + t as int
                    / (side as int * side as int));
            }
            proof {
                assert(a as int == t as int % (side as int));
                assert(b as int == (t as int / side as int) % (side as int));
                assert(cz as int == t as int / (side as int * side as int));
                assert(a < side && b < side && cz < side);
            }
            let delta = ChunkPosition {
                x: a as i32 - view_distance,
                y: b as i32 - view_distance,
                z: cz as i32 - view_distance,
            };
            proof {
                assert(delta.x as int == a as int - d);
                assert(delta.y as int == b as int - d);
                assert(delta.z as int == cz as int - d);
            }
            let ghost x = cell_x_of(observer, d, side as int, t as int);
            let ghost y = cell_y_of(observer, d, side as int, t as int);
            let ghost z = cell_z_of(observer, d, side as int, t as int);
            let ghost ret_before = ret@;
            let ghost self_before = *self;
            match self.bounded_add(observer, delta) {
                Some(n) => {
                    proof {
                        assert(n == pos_from(x, y, z));
                    }
                    let dispatched = self.request_chunk(n);
                    if dispatched {
                        proof {
                            assert(!ret_before.contains(n)) by {
                                if ret_before.contains(n) {
                                    let k = choose|k: int|
                                        0 <= k < ret_before.len() && ret_before[k] == n;
                                    assert(self_before.state_of(ret_before[k]) is Generating);
                                    assert(self_before.state_of(n) is Unloaded);
                                }
                            }
                        }
                        ret.push(n);
                    }
                    proof {
                        assert forall|k: int| 0 <= k < ret@.len() implies {
                            let c = #[trigger] ret@[k];
                            &&& self.state_of(c) is Generating
                            &&& w0.state_of(c) is Unloaded
                            &&& w0.map.in_bounds(c)
                            &&& in_view(observer, d, c.x as int, c.y as int, c.z as int)
                        } by {
                            if k < ret_before.len() {
                                assert(ret@[k] == ret_before[k]);
                                let c = ret_before[k];
                                assert(self_before.state_of(c) is Generating);
                                if c == n {
                                    assert(!(self_before.state_of(n) is Unloaded));
                                    assert(!dispatched);
                                }
                                assert(self.state_of(c) == self_before.state_of(c));
                            } else {
                                assert(ret@[k] == n);
                                assert(self_before.state_of(n) is Unloaded);
                                assert(self_before.state_of(n) == w0.state_of(n)
                                    || self_before.state_of(n) is Generating);
                            }
                        }
                        assert forall|k1: int, k2: int| 0 <= k1 < k2 < ret@.len() implies ret@[k1]
                            != ret@[k2] by {
                            if k2 < ret_before.len() {
                                assert(ret@[k1] == ret_before[k1] && ret@[k2] == ret_before[k2]);
                            } else {
                                assert(ret@[k1] == ret_before[k1] && ret@[k2] == n);
                                if ret_before[k1] == n {
                                    assert(ret_before.contains(n));
                                }
                            }
                        }
                    }
                },
                None => {
                    proof {
                        assert(!int_in_bounds(*self, x, y, z));
                        assert(!int_in_bounds(w0, x, y, z));
                        assert(state_at(w0, x, y, z) is Unloaded);
                        assert(state_at(*self, x, y, z) is Unloaded);
                    }
                },
            }
            proof {
                lemma_spawn_step(
                    w0,
                    self_before,
                    *self,
                    ret_before,
                    ret@,
                    observer,
                    d,
                    side as int,
                    t as int,
                    x,
                    y,
                    z,
                );
            }
            t += 1;
        }
        proof {
            assert forall|x: int, y: int, z: int|
                in_view(observer, d, x, y, z) implies #[trigger] cell_done(
                w0,
                *self,
                ret@,
                x,
                y,
                z,
            ) by {
                let a = x - observer.x + d;
                let b = y - observer.y + d;
                let cc = z - observer.z + d;
                lemma_box_encode(side as int, side as int, side as int, a, b, cc);
                let t2 = a + side as int * (b + side as int * cc);
                assert(cell_x_of(observer, d, side as int, t2) == x);
                assert(cell_y_of(observer, d, side as int, t2) == y);
                assert(cell_z_of(observer, d, side as int, t2) == z);
            }
        }
        ret
    }
}

/// One iteration of the spawn pass leaves every earlier cell done and the
/// allowed-change and dispatched-entry invariants intact.
proof fn lemma_spawn_step(
    w0: World,
    pre: World,
    post: World,
    ret0: Seq<ChunkPosition>,
    ret1: Seq<ChunkPosition>,
    observer: ChunkPosition,
    d: int,
    side: int,
    t: int,
    x: int,
    y: int,
    z: int,
)
    requires
        side == 2 * d,
        0 <= d,
        0 <= t,
        x == cell_x_of(observer, d, side, t),
        y == cell_y_of(observer, d, side, t),
        z == cell_z_of(observer, d, side, t),
        0 <= t % side < side,
        0 <= (t / side) % side < side,
        0 <= t / (side * side) < side,
        spawn_allowed_change(w0, pre, ret0, observer, d),
        forall|t2: int|
            0 <= t2 < t ==> #[trigger] cell_done(
                w0,
                pre,
                ret0,
                cell_x_of(observer, d, side, t2),
                cell_y_of(observer, d, side, t2),
                cell_z_of(observer, d, side, t2),
            ),
        // What the iteration did: either the cell was handled by a request
        // transition (and pushed when dispatched), or it lay out of bounds
        // and nothing changed.
        ({
            ||| (int_in_bounds(w0, x, y, z) && {
                let n = pos_from(x, y, z);
                exists|dispatched: bool|
                    {
                        &&& #[trigger] request_transition(pre, post, n, dispatched)
                        &&& (if dispatched {
                            ret1 == ret0.push(n)
                        } else {
                            ret1 == ret0
                        })
                    }
            })
            ||| (!int_in_bounds(w0, x, y, z) && post == pre && ret1 == ret0)
        }),
        pre.map.settings == w0.map.settings,
    ensures
        spawn_allowed_change(w0, post, ret1, observer, d),
        forall|t2: int|
            0 <= t2 < t + 1 ==> #[trigger] cell_done(
                w0,
                post,
                ret1,
                cell_x_of(observer, d, side, t2),
                cell_y_of(observer, d, side, t2),
                cell_z_of(observer, d, side, t2),
            ),
{
    assert(in_view(observer, d, x, y, z));
    if int_in_bounds(w0, x, y, z) {
        let n = pos_from(x, y, z);
        let dispatched = choose|dispatched: bool|
            {
                &&& #[trigger] request_transition(pre, post, n, dispatched)
                &&& (if dispatched {
                    ret1 == ret0.push(n)
                } else {
                    ret1 == ret0
                })
            };
        assert(int_in_bounds(w0, n.x as int, n.y as int, n.z as int));
        // The allowed-change relation is preserved.
        assert forall|c2: ChunkPosition|
            #![trigger post.state_of(c2)]
            post.state_of(c2) == w0.state_of(c2) || (w0.state_of(c2) is Unloaded && post.state_of(
                c2,
            ) is Generating && w0.map.in_bounds(c2) && in_view(
                observer,
                d,
                c2.x as int,
                c2.y as int,
                c2.z as int,
            ) && ret1.contains(c2)) by {
            if c2 == n {
                if dispatched {
                    assert(ret1[ret0.len() as int] == n);
                    assert(ret1.contains(n));
                    assert(pre.state_of(n) is Unloaded);
                    assert(w0.state_of(n) == pre.state_of(n));
                }
            } else {
                assert(post.state_of(c2) == pre.state_of(c2));
                if pre.state_of(c2) != w0.state_of(c2) {
                    if dispatched {
                        lemma_contains_push(ret0, c2, n);
                    }
                }
            }
        }
        // Every cell up to and including this one is done.
        assert forall|t2: int| 0 <= t2 < t + 1 implies #[trigger] cell_done(
            w0,
            post,
            ret1,
            cell_x_of(observer, d, side, t2),
            cell_y_of(observer, d, side, t2),
            cell_z_of(observer, d, side, t2),
        ) by {
            let x2 = cell_x_of(observer, d, side, t2);
            let y2 = cell_y_of(observer, d, side, t2);
            let z2 = cell_z_of(observer, d, side, t2);
            if t2 < t {
                assert(cell_done(w0, pre, ret0, x2, y2, z2));
                lemma_cell_done_step(w0, pre, post, ret0, ret1, n, dispatched, x2, y2, z2);
            } else {
                if state_at(w0, x, y, z) is Unloaded {
                    if dispatched {
                        assert(ret1[ret0.len() as int] == n);
                        assert(ret1.contains(n));
                        assert(state_at(post, x, y, z) is Generating);
                    } else {
                        // The cell was already requested by this pass or an
                        // earlier tick: it is Generating, not Unloaded.
                        assert(pre.state_of(n) == w0.state_of(n) || pre.state_of(n) is Generating);
                        assert(!(pre.state_of(n) is Unloaded));
                        assert(w0.state_of(n) is Unloaded && pre.state_of(n) is Generating);
                        assert(ret0.contains(n));
                        assert(post.state_of(n) == pre.state_of(n));
                    }
                } else {
                    assert(!(pre.map.in_bounds(n) && pre.state_of(n) is Unloaded) ==> post.state_of(
                        n,
                    ) == pre.state_of(n));
                    if pre.state_of(n) is Unloaded {
                        assert(pre.state_of(n) == w0.state_of(n) || (w0.state_of(n) is Unloaded));
                        assert(state_at(post, x, y, z) == state_at(w0, x, y, z));
                    } else {
                        assert(pre.state_of(n) == w0.state_of(n));
                        assert(post.state_of(n) == pre.state_of(n));
                    }
                }
            }
        }
    } else {
        assert forall|t2: int| 0 <= t2 < t + 1 implies #[trigger] cell_done(
            w0,
            post,
            ret1,
            cell_x_of(observer, d, side, t2),
            cell_y_of(observer, d, side, t2),
            cell_z_of(observer, d, side, t2),
        ) by {
            if t2 == t {
                assert(state_at(w0, x, y, z) is Unloaded);
                assert(state_at(post, x, y, z) is Unloaded);
            }
        }
    }
}

/// A done cell stays done across a request transition at another coordinate
/// (or a discarded request at the same one) and a grown dispatch list.
proof fn lemma_cell_done_step(
    w0: World,
    pre: World,
    post: World,
    ret0: Seq<ChunkPosition>,
    ret1: Seq<ChunkPosition>,
    n: ChunkPosition,
    dispatched: bool,
    x2: int,
    y2: int,
    z2: int,
)
    requires
        cell_done(w0, pre, ret0, x2, y2, z2),
        request_transition(pre, post, n, dispatched),
        if dispatched {
            ret1 == ret0.push(n)
        } else {
            ret1 == ret0
        },
        pre.map.settings == w0.map.settings,
        post.map.settings == w0.map.settings,
    ensures
        cell_done(w0, post, ret1, x2, y2, z2),
{
    if int_in_bounds(w0, x2, y2, z2) {
        let p = pos_from(x2, y2, z2);
        if state_at(w0, x2, y2, z2) is Unloaded {
            // Already Generating before this iteration, so the request at n
            // either targeted another coordinate or changed nothing.
            assert(pre.state_of(p) is Generating);
            if p == n {
                assert(!dispatched);
                assert(post.state_of(p) == pre.state_of(p));
            } else {
                assert(post.state_of(p) == pre.state_of(p));
            }
            if dispatched {
                lemma_contains_push(ret0, p, n);
            }
        } else {
            assert(state_at(pre, x2, y2, z2) == state_at(w0, x2, y2, z2));
            if p == n {
                assert(!(pre.state_of(n) is Unloaded) ==> post.state_of(n) == pre.state_of(n));
                if pre.state_of(n) is Unloaded {
                    assert(state_at(w0, x2, y2, z2) is Unloaded);
                }
            } else {
                assert(post.state_of(p) == pre.state_of(p));
            }
        }
    } else {
        assert(state_at(w0, x2, y2, z2) is Unloaded);
        assert(state_at(pre, x2, y2, z2) is Unloaded);
        assert(state_at(post, x2, y2, z2) is Unloaded);
    }
}

/// A chunk whose every voxel obeys the built-in terrain rule at its height.
pub open spec fn terrain_chunk(ch: Chunk) -> bool {
    forall|x: int, y: int, z: int|
        0 <= x < 32 && 0 <= y < 32 && 0 <= z < 32 ==> crate::chunk::terrain_voxel_ok(
            y,
            #[trigger] ch.vox(x, y, z),
        )
}

/// A coordinate of the generated box holds a generated terrain chunk.
pub open spec fn generated_cell_ok(w: World, x: int, y: int, z: int) -> bool {
    &&& w.state_of(pos_from(x, y, z)) is Generated
    &&& terrain_chunk(w.state_of(pos_from(x, y, z))->Generated_0)
}

/// Box cells encode to linear indices and back: the cell of the encoded
/// index is the cell itself.
proof fn lemma_box_encode(d0: int, d1: int, d2: int, x: int, y: int, z: int)
    requires
        0 <= x < d0,
        0 <= y < d1,
        0 <= z < d2,
    ensures
        ({
            let t = x + d0 * (y + d1 * z);
            &&& 0 <= t < d0 * d1 * d2
            &&& t % d0 == x
            &&& (t / d0) % d1 == y
            &&& t / (d0 * d1) == z
        }),
{
    let t = x + d0 * (y + d1 * z);
    let q1 = y + d1 * z;
    assert(0 <= t && t < d0 * d1 * d2) by (nonlinear_arith)
        requires
            0 <= x < d0,
            0 <= y < d1,
            0 <= z < d2,
            t == x + d0 * (y + d1 * z),
    ;
    assert(t == q1 * d0 + x) by (nonlinear_arith)
        requires
            t == x + d0 * q1,
    ;
    assert(t % d0 == x && t / d0 == q1) by {
        vstd::arithmetic::div_mod::lemma_fundamental_div_mod_converse(t, d0, q1, x);
    }
    assert(q1 == z * d1 + y) by (nonlinear_arith)
        requires
            q1 == y + d1 * z,
    ;
    assert(q1 % d1 == y && q1 / d1 == z) by {
        vstd::arithmetic::div_mod::lemma_fundamental_div_mod_converse(q1, d1, z, y);
    }
    assert(t / (d0 * d1) == (t / d0) / d1) by {
        vstd::arithmetic::div_mod::lemma_div_denominator(t, d0, d1);
    }
}

impl World {
    /// Builds a world bounded by the given dimensions and eagerly generates
    /// a terrain chunk at every coordinate of the box `[0, dimensions)`, as
    /// a whole-world warm start: every such coordinate ends `Generated` and
    /// holds terrain obeying the height rule.
    pub fn generate(dimensions: [u32; 3]) -> (w: World)
        requires
            dimensions@[0] <= 1024,
            dimensions@[1] <= 1024,
            dimensions@[2] <= 1024,
        ensures
            w.wf(),
            w.map.settings.bounds.x as int == dimensions@[0] as int,
            w.map.settings.bounds.y as int == dimensions@[1] as int,
            w.map.settings.bounds.z as int == dimensions@[2] as int,
            forall|x: int, y: int, z: int|
                0 <= x < dimensions@[0] as int && 0 <= y < dimensions@[1] as int && 0 <= z
                    < dimensions@[2] as int ==> #[trigger] generated_cell_ok(w, x, y, z),
    {
        let bounds = ChunkPosition {
            x: dimensions[0] as i32,
            y: dimensions[1] as i32,
            z: dimensions[2] as i32,
        };
        let mut w = World::new(VoxelMapSettings { bounds });
        let d0 = dimensions[0] as usize;
        let d1 = dimensions[1] as usize;
        let d2 = dimensions[2] as usize;
        proof {
            assert(d0 * d1 <= 1024 * 1024) by (nonlinear_arith)
                requires
                    d0 <= 1024,
                    d1 <= 1024,
            ;
        }
        let plane: usize = d0 * d1;
        proof {
            assert(plane * d2 <= 1048576 * 1024) by (nonlinear_arith)
                requires
                    plane <= 1048576,
                    d2 <= 1024,
            ;
        }
        let volume: usize = plane * d2;
        let mut t: usize = 0;
        while t < volume
            invariant
                t <= volume,
                w.wf(),
                w.map.settings.bounds == (ChunkPosition {
                    x: d0 as i32,
                    y: d1 as i32,
                    z: d2 as i32,
                }),
                d0 <= 1024 && d1 <= 1024 && d2 <= 1024,
                plane == d0 * d1,
                volume == plane * d2,
                forall|t2: int|
                    0 <= t2 < t as int ==> #[trigger] generated_cell_ok(
                        w,
                        t2 % d0 as int,
                        (t2 / d0 as int) % d1 as int,
                        t2 / plane as int,
                    ),
            decreases volume - t,
        {
            proof {
                assert(0 < d0 && 0 < d1 && 0 < d2 && 0 < plane) by (nonlinear_arith)
                    requires
                        plane == d0 * d1,
                        volume == plane * d2,
                        t < volume,
                ;
            }
            let x = t % d0;
            let y = (t / d0) % d1;
            let z = t / plane;
            proof {
                assert(0 <= t as int % (d0 as int) && t as int % (d0 as int) < (d0 as int)) by {
                    vstd::arithmetic::div_mod::lemma_remainder_upper(t as int, d0 as int);
                    vstd::arithmetic::div_mod::lemma_remainder_lower(t as int, d0 as int);
                }
                assert(0 <= (t as int / d0 as int) % (d1 as int) && (t as int / d0 as int) % (
                d1 as int) < (d1 as int)) by {
                    vstd::arithmetic::div_mod::lemma_remainder_upper(
                        t as int / d0 as int,
                        d1 as int,
                    );
                    vstd::arithmetic::div_mod::lemma_remainder_lower(
                        t as int / d0 as int,
                        d1 as int,
                    );
                }
                assert(0 <= t as int / (plane as int) && t as int / (plane as int) < (
                d2 as int)) by {
                    vstd::arithmetic::div_mod::lemma_div_pos_is_pos(t as int, plane as int);
                    assert((t as int) < (plane as int) * (d2 as int));
                    vstd::arithmetic::div_mod::lemma_multiply_divide_lt(
                        t as int,
                        plane as int,
                        d2 as int,
                    );
                }
            }
            let pos = ChunkPosition { x: x as i32, y: y as i32, z: z as i32 };
            let chunk = Chunk::generate_terrain();
            let ghost w_before = w;
            w.map.set_slot(pos, ChunkSlot::Generated(chunk));
            proof {
                lemma_slot_wf_frame(w_before, w, pos);
                assert(generated_cell_ok(w, x as int, y as int, z as int));
                assert forall|t2: int| 0 <= t2 < t as int + 1 implies #[trigger] generated_cell_ok(
                    w,
                    t2 % d0 as int,
                    (t2 / d0 as int) % d1 as int,
                    t2 / plane as int,
                ) by {
                    if t2 < t as int {
                        let x2 = t2 % d0 as int;
                        let y2 = (t2 / d0 as int) % d1 as int;
                        let z2 = t2 / plane as int;
                        assert(generated_cell_ok(w_before, x2, y2, z2));
                        if pos_from(x2, y2, z2) == pos {
                        } else {
                            assert(w.state_of(pos_from(x2, y2, z2)) == w_before.state_of(
                                pos_from(x2, y2, z2),
                            ));
                        }
                    } else {
                        assert(t2 % d0 as int == x as int && (t2 / d0 as int) % d1 as int
                            == y as int && t2 / plane as int == z as int);
                    }
                }
            }
            t += 1;
        }
        proof {
            assert forall|x: int, y: int, z: int|
                0 <= x < d0 as int && 0 <= y < d1 as int && 0 <= z < d2 as int implies
                #[trigger] generated_cell_ok(w, x, y, z) by {
                lemma_box_encode(d0 as int, d1 as int, d2 as int, x, y, z);
                let t2 = x + d0 as int * (y + d1 as int * z);
                assert(volume as int == d0 as int * d1 as int * d2 as int) by (nonlinear_arith)
                    requires
                        plane == d0 * d1,
                        volume == plane * d2,
                ;
                assert(t2 / plane as int == z) by {
                    assert(plane as int == d0 as int * d1 as int);
                }
                assert(generated_cell_ok(
                    w,
                    t2 % d0 as int,
                    (t2 / d0 as int) % d1 as int,
                    t2 / plane as int,
                ));
            }
        }
        w
    }
}

/// The mesh handle a coordinate's slot held, if any: what the render sink
/// must be told to remove when the coordinate despawns.
pub open spec fn stored_handle(s: ChunkSlot) -> Option<MeshHandle> {
    match s {
        ChunkSlot::Meshed(_, handle) => Some(handle),
        _ => None,
    }
}

impl World {
    /// One despawn pass of the scheduling tick: every loaded coordinate
    /// whose distance from the observer exceeds the view cube reverts to
    /// `Unloaded`, freeing its chunk and mesh data, and its stored mesh
    /// handle (if meshed) is reported for removal from the renderer.
    /// Coordinates still in view are untouched.
    pub fn tick_despawn(&mut self, observer: ChunkPosition, view_distance: i32) -> (ret: Vec<
        (ChunkPosition, Option<MeshHandle>),
    >)
        requires
            old(self).wf(),
            0 <= view_distance <= 256,
        ensures
            final(self).wf(),
            final(self).map.settings == old(self).map.settings,
            forall|c2: ChunkPosition|
                !in_view(observer, view_distance as int, c2.x as int, c2.y as int, c2.z as int)
                    ==> #[trigger] final(self).state_of(c2) is Unloaded,
            forall|c2: ChunkPosition|
                in_view(observer, view_distance as int, c2.x as int, c2.y as int, c2.z as int)
                    ==> #[trigger] final(self).state_of(c2) == old(self).state_of(c2),
            forall|k: int|
                0 <= k < ret@.len() ==> {
                    let (c2, h) = #[trigger] ret@[k];
                    &&& !in_view(observer, view_distance as int, c2.x as int, c2.y as int, c2.z as int)
                    &&& h == stored_handle(old(self).state_of(c2))
                },
            forall|c2: ChunkPosition|
                !in_view(observer, view_distance as int, c2.x as int, c2.y as int, c2.z as int)
                    && #[trigger] stored_handle(old(self).state_of(c2)) is Some ==> ret@.contains(
                    (c2, stored_handle(old(self).state_of(c2))),
                ),
    {
        let ghost w0 = *old(self);
        let ghost d = view_distance as int;
        // First pass: collect the loaded coordinates that fell out of view.
        let mut victims: Vec<ChunkPosition> = Vec::new();
        let ghost mut src: Seq<int> = Seq::empty();
        let n = self.map.loaded_count();
        let mut i: usize = 0;
        while i < n
            invariant
                i <= n,
                self == old(self),
                n == self.map.loaded@.len(),
                self.wf(),
                d == view_distance as int,
                0 <= d <= 256,
                src.len() == victims@.len(),
                forall|k: int|
                    0 <= k < victims@.len() ==> 0 <= #[trigger] src[k] < i as int && victims@[k]
                        == self.map.loaded@[src[k]],
                forall|k1: int, k2: int| 0 <= k1 < k2 < victims@.len() ==> src[k1] < src[k2],
                forall|k: int|
                    0 <= k < victims@.len() ==> !in_view(
                        observer,
                        d,
                        (#[trigger] victims@[k]).x as int,
                        victims@[k].y as int,
                        victims@[k].z as int,
                    ),
                forall|j: int|
                    0 <= j < i as int && !in_view(
                        observer,
                        d,
                        (#[trigger] self.map.loaded@[j]).x as int,
                        self.map.loaded@[j].y as int,
                        self.map.loaded@[j].z as int,
                    ) ==> victims@.contains(self.map.loaded@[j]),
            decreases n - i,
        {
            let c = self.map.loaded_at(i);
            if !World::in_view_exec(observer, view_distance, c) {
                let ghost victims0 = victims@;
                victims.push(c);
                proof {
                    src = src.push(i as int);
                    assert(victims@[victims0.len() as int] == c);
                    assert forall|j: int|
                        0 <= j < i as int + 1 && !in_view(
                            observer,
                            d,
                            (#[trigger] self.map.loaded@[j]).x as int,
                            self.map.loaded@[j].y as int,
                            self.map.loaded@[j].z as int,
                        ) implies victims@.contains(self.map.loaded@[j]) by {
                        if j < i as int {
                            assert(victims0.contains(self.map.loaded@[j]));
                            lemma_contains_push(victims0, self.map.loaded@[j], c);
                        } else {
                            assert(victims@[victims0.len() as int] == self.map.loaded@[j]);
                        }
                    }
                }
            }
            i += 1;
        }
        proof {
            // Distinct source indices give distinct victims.
            assert forall|k1: int, k2: int| 0 <= k1 < k2 < victims@.len() implies victims@[k1]
                != victims@[k2] by {
                assert(victims@[k1] == self.map.loaded@[src[k1]]);
                assert(victims@[k2] == self.map.loaded@[src[k2]]);
                assert(self.map.loaded@[src[k1]] != self.map.loaded@[src[k2]]);
            }
        }
        let ghost victims_final = victims@;
        // Second pass: despawn each collected coordinate.
        let mut ret: Vec<(ChunkPosition, Option<MeshHandle>)> = Vec::new();
        let mut k: usize = 0;
        while k < victims.len()
            invariant
                k <= victims@.len(),
                victims@ == victims_final,
                self.wf(),
                self.map.settings == w0.map.settings,
                d == view_distance as int,
                forall|k1: int, k2: int| 0 <= k1 < k2 < victims@.len() ==> victims@[k1]
                    != victims@[k2],
                ret@.len() == k as int,
                forall|j: int|
                    0 <= j < k as int ==> #[trigger] ret@[j] == (
                    victims@[j],
                    stored_handle(w0.state_of(victims@[j])),
                ),
                forall|j: int|
                    0 <= j < k as int ==> #[trigger] self.state_of(victims@[j]) is Unloaded,
                forall|j: int|
                    k as int <= j < victims@.len() ==> #[trigger] self.state_of(victims@[j])
                        == w0.state_of(victims@[j]),
                forall|c2: ChunkPosition|
                    #![trigger self.state_of(c2)]
                    self.state_of(c2) == w0.state_of(c2) || (victims@.contains(c2)
                        && self.state_of(c2) is Unloaded),
            decreases victims@.len() - k,
        {
            let c = victims[k];
            let ghost self_before = *self;
            let h = self.despawn(c);
            proof {
                assert(victims@.contains(c)) by {
                    assert(victims@[k as int] == c);
                }
                // Earlier despawns hit other, distinct victims, so this one
                // still held the state it had before the pass.
                assert(self_before.state_of(victims@[k as int]) == w0.state_of(
                    victims@[k as int],
                ));
            }
            ret.push((c, h));
            k += 1;
        }
        proof {
            assert forall|c2: ChunkPosition|
                !in_view(observer, d, c2.x as int, c2.y as int, c2.z as int) implies
                #[trigger] self.state_of(c2) is Unloaded by {
                if !(self.state_of(c2) is Unloaded) {
                    assert(self.state_of(c2) == w0.state_of(c2));
                    assert(w0.map.tracks(c2)) by {
                        if !w0.map.tracks(c2) {
                            assert(w0.state_of(c2) is Unloaded);
                        }
                    }
                    let j = choose|j: int|
                        0 <= j < w0.map.loaded@.len() && position_key_of(c2) == position_key_of(
                            #[trigger] w0.map.loaded@[j],
                        );
                    proof_loaded_eq(w0, c2, j);
                    assert(victims_final.contains(c2));
                    let vk = choose|vk: int|
                        0 <= vk < victims_final.len() && victims_final[vk] == c2;
                    assert(self.state_of(victims_final[vk]) is Unloaded);
                }
            }
            assert forall|c2: ChunkPosition|
                in_view(observer, d, c2.x as int, c2.y as int, c2.z as int) implies
                #[trigger] self.state_of(c2) == w0.state_of(c2) by {
                if self.state_of(c2) != w0.state_of(c2) {
                    assert(victims_final.contains(c2));
                    let vk = choose|vk: int|
                        0 <= vk < victims_final.len() && victims_final[vk] == c2;
                    assert(!in_view(
                        observer,
                        d,
                        victims_final[vk].x as int,
                        victims_final[vk].y as int,
                        victims_final[vk].z as int,
                    ));
                }
            }
            assert forall|c2: ChunkPosition|
                !in_view(observer, d, c2.x as int, c2.y as int, c2.z as int)
                    && #[trigger] stored_handle(w0.state_of(c2)) is Some implies ret@.contains(
                (c2, stored_handle(w0.state_of(c2))),
            ) by {
                assert(w0.map.tracks(c2)) by {
                    if !w0.map.tracks(c2) {
                        assert(w0.state_of(c2) is Unloaded);
                    }
                }
                let j = choose|j: int|
                    0 <= j < w0.map.loaded@.len() && position_key_of(c2) == position_key_of(
                        #[trigger] w0.map.loaded@[j],
                    );
                proof_loaded_eq(w0, c2, j);
                assert(victims_final.contains(c2));
                let vk = choose|vk: int| 0 <= vk < victims_final.len() && victims_final[vk] == c2;
                assert(ret@[vk] == (c2, stored_handle(w0.state_of(c2))));
                assert(ret@.contains((c2, stored_handle(w0.state_of(c2)))));
            }
        }
        ret
    }
}

/// The packed hash key of a coordinate; a local name so despawn proofs can
/// speak of the index invariant's key containment.
pub open spec fn position_key_of(c: ChunkPosition) -> u128 {
    crate::map::position_key(c)
}

/// A tracked coordinate equals the loaded-list entry its key points at.
proof fn proof_loaded_eq(w: World, c: ChunkPosition, j: int)
    requires
        w.map.wf(),
        0 <= j < w.map.loaded@.len(),
        position_key_of(c) == position_key_of(w.map.loaded@[j]),
    ensures
        c == w.map.loaded@[j],
{
    crate::map::lemma_position_key_injective(c, w.map.loaded@[j]);
}

/// A coordinate despawned from `Meshed` back to `Unloaded` and then
/// re-requested regenerates content equal to its first generation, provided
/// the generator is deterministic: after the new request dispatches and its
/// chunk is applied, the stored chunk holds exactly the voxels the first
/// one held.
pub proof fn lemma_despawn_respawn_deterministic<F: Fn(usize, usize, usize) -> Voxel>(
    generator: F,
    despawned: World,
    requested: World,
    respawned: World,
    c: ChunkPosition,
    first: Chunk,
    second: Chunk,
)
    requires
        forall|args: (usize, usize, usize), v1: Voxel, v2: Voxel|
            #[trigger] call_ensures(generator, args, v1) && #[trigger] call_ensures(
                generator,
                args,
                v2,
            ) ==> v1 == v2,
        crate::chunk::generated_by(first, generator),
        crate::chunk::generated_by(second, generator),
        despawned.state_of(c) is Unloaded,
        request_transition(despawned, requested, c, true),
        generated_transition(requested, respawned, c, second, true),
    ensures
        respawned.state_of(c) == ChunkSlot::Generated(second),
        forall|x: int, y: int, z: int|
            0 <= x < 32 && 0 <= y < 32 && 0 <= z < 32 ==> #[trigger] second.vox(x, y, z)
                == #[trigger] first.vox(x, y, z),
{
    crate::chunk::lemma_generation_deterministic(generator, second, first);
}

/// Requesting a coordinate twice before its task completes dispatches only
/// one task: the second request finds the slot already `Generating` (or
/// farther along) and does nothing.
pub proof fn lemma_single_generation_dispatch(
    w0: World,
    w1: World,
    w2: World,
    c: ChunkPosition,
    d1: bool,
    d2: bool,
)
    requires
        request_transition(w0, w1, c, d1),
        request_transition(w1, w2, c, d2),
    ensures
        !(d1 && d2),
{
}

/// Requesting a mesh twice before its task completes dispatches only one
/// task: the second request finds the slot already `Meshing`.
pub proof fn lemma_single_mesh_dispatch(
    w0: World,
    w1: World,
    w2: World,
    c: ChunkPosition,
    r1: Option<MeshingChunk>,
    r2: Option<MeshingChunk>,
)
    requires
        mesh_request_transition(w0, w1, c, r1),
        mesh_request_transition(w1, w2, c, r2),
    ensures
        !(r1 is Some && r2 is Some),
{
}

/// A coordinate's slot is one state, so at most one of the two transient
/// task markers, `Generating` and `Meshing`, holds at any time: a coordinate
/// never has both a generation and a meshing task outstanding.
pub proof fn lemma_one_outstanding_task(w: World, c: ChunkPosition)
    ensures
        !(w.state_of(c) is Generating && w.state_of(c) is Meshing),
{
}

} // verus!

//! The world index: a sparse mapping from signed chunk coordinates to
//! per-coordinate slots, bounded by a per-axis magnitude ceiling. No slot
//! ever exists for an out-of-bounds coordinate, and distant coordinates cost
//! nothing until they are first referenced.

use vstd::prelude::*;

use crate::chunk::{Chunk, ChunkPosition};
use crate::mesher::MeshBuffers;

verus! {

/// A handle under which the external renderer tracks one chunk's mesh; the
/// core stores it so that a despawn can name the mesh to remove.
#[derive(Clone, Copy, PartialEq, Eq, Structural, Debug)]
pub struct MeshHandle(pub u64);

/// The per-coordinate state of the world index, advanced only by the
/// scheduler: created `Unloaded`, marked `Generating` while a generation
/// task is in flight, `Generated` once the chunk exists, `Meshing` while a
/// meshing task is in flight, and `Meshed` once its mesh handle exists.
pub enum ChunkSlot {
    Unloaded,
    Generating,
    Generated(Chunk),
    Meshing(Chunk),
    Meshed(Chunk, MeshHandle),
}

impl ChunkSlot {
    /// The chunk held by the slot, if its state carries one.
    pub open spec fn chunk(self) -> Option<Chunk> {
        match self {
            ChunkSlot::Unloaded => None,
            ChunkSlot::Generating => None,
            ChunkSlot::Generated(c) => Some(c),
            ChunkSlot::Meshing(c) => Some(c),
            ChunkSlot::Meshed(c, _) => Some(c),
        }
    }

    /// True while a task for this coordinate is in flight: at most one of
    /// these states holds at a time because a coordinate has one slot.
    pub open spec fn task_outstanding(self) -> bool {
        self is Generating || self is Meshing
    }
}

/// Construction-time settings of a world index: the per-axis magnitude
/// ceiling on chunk coordinates.
#[derive(Clone, Copy, PartialEq, Eq, Structural, Debug)]
pub struct VoxelMapSettings {
    pub bounds: ChunkPosition,
}

impl Default for VoxelMapSettings {
    /// Sensible defaults for a Minecraft-like world: wide and flat.
    fn default() -> (s: VoxelMapSettings)
        ensures
            s.bounds == (ChunkPosition { x: 500, y: 20, z: 500 }),
    {
        VoxelMapSettings { bounds: ChunkPosition { x: 500, y: 20, z: 500 } }
    }
}

/// The hash key of a chunk coordinate: its three axes, each shifted to an
/// unsigned 32-bit value, packed into one integer. The packing is injective,
/// so distinct coordinates never collide on a key.
#[verifier::opaque]
pub open spec fn position_key(c: ChunkPosition) -> u128 {
    (((c.x + 0x8000_0000) * 0x1_0000_0000_0000_0000) + ((c.y + 0x8000_0000) * 0x1_0000_0000) + (c.z
        + 0x8000_0000)) as u128
}

/// Distinct coordinates pack to distinct keys.
pub proof fn lemma_position_key_injective(c1: ChunkPosition, c2: ChunkPosition)
    requires
        position_key(c1) == position_key(c2),
    ensures
        c1 == c2,
{
    reveal(position_key);
    let x1 = c1.x + 0x8000_0000;
    let y1 = c1.y + 0x8000_0000;
    let z1 = c1.z + 0x8000_0000;
    let x2 = c2.x + 0x8000_0000;
    let y2 = c2.y + 0x8000_0000;
    let z2 = c2.z + 0x8000_0000;
    let v1 = x1 * 0x1_0000_0000_0000_0000 + y1 * 0x1_0000_0000 + z1;
    let v2 = x2 * 0x1_0000_0000_0000_0000 + y2 * 0x1_0000_0000 + z2;
    assert(0 <= v1 < 0x1_0000_0000_0000_0000_0000_0000);
    assert(0 <= v2 < 0x1_0000_0000_0000_0000_0000_0000);
    assert(v1 == v2);
    assert(x1 == x2 && y1 * 0x1_0000_0000 + z1 == y2 * 0x1_0000_0000 + z2) by {
        vstd::arithmetic::div_mod::lemma_fundamental_div_mod_converse(
            v1,
            0x1_0000_0000_0000_0000,
            x1,
            y1 * 0x1_0000_0000 + z1,
        );
        vstd::arithmetic::div_mod::lemma_fundamental_div_mod_converse(
            v2,
            0x1_0000_0000_0000_0000,
            x2,
            y2 * 0x1_0000_0000 + z2,
        );
    }
    assert(y1 == y2 && z1 == z2) by {
        vstd::arithmetic::div_mod::lemma_fundamental_div_mod_converse(
            y1 * 0x1_0000_0000 + z1,
            0x1_0000_0000,
            y1,
            z1,
        );
        vstd::arithmetic::div_mod::lemma_fundamental_div_mod_converse(
            y2 * 0x1_0000_0000 + z2,
            0x1_0000_0000,
            y2,
            z2,
        );
    }
}

/// Packs a chunk coordinate into its hash key.
fn make_key(c: ChunkPosition) -> (k: u128)
    ensures
        k == position_key(c),
{
    proof {
        reveal(position_key);
    }
    let x = (c.x as i64 + 0x8000_0000) as u128;
    let y = (c.y as i64 + 0x8000_0000) as u128;
    let z = (c.z as i64 + 0x8000_0000) as u128;
    x * 0x1_0000_0000_0000_0000 + y * 0x1_0000_0000 + z
}

/// Stores one `ChunkSlot` per referenced in-bounds chunk coordinate, in a
/// hash map keyed by the packed coordinate. A coordinate with no entry is
/// `Unloaded`; the list of loaded coordinates is mirrored in `loaded` so
/// despawn scans need not walk the hash map.
pub struct VoxelMap {
    pub chunks: vstd::hash_map::HashMapWithView<u128, ChunkSlot>,
    pub loaded: Vec<ChunkPosition>,
    pub settings: VoxelMapSettings,
}

impl VoxelMap {
    /// True when the coordinate lies inside this map's world bounds.
    pub open spec fn in_bounds(self, c: ChunkPosition) -> bool {
        !c.exceeds_bounds_spec(self.settings.bounds)
    }

    /// The index invariant: entries exist exactly for the coordinates in
    /// `loaded`, each listed once, and never out of bounds.
    pub open spec fn wf(self) -> bool {
        &&& forall|i: int|
            0 <= i < self.loaded@.len() ==> self.in_bounds(#[trigger] self.loaded@[i])
        &&& forall|i: int|
            0 <= i < self.loaded@.len() ==> self.chunks@.contains_key(
                position_key(#[trigger] self.loaded@[i]),
            )
        &&& forall|i: int, j: int|
            0 <= i < j < self.loaded@.len() ==> #[trigger] self.loaded@[i] != #[trigger] self.loaded@[j]
        &&& forall|k: u128|
            #[trigger] self.chunks@.contains_key(k) ==> exists|i: int|
                0 <= i < self.loaded@.len() && k == position_key(self.loaded@[i])
    }

    /// The state of a coordinate: its stored slot, or `Unloaded` when no
    /// entry exists (a coordinate never referenced, or despawned).
    pub open spec fn state_of(self, c: ChunkPosition) -> ChunkSlot {
        if self.chunks@.contains_key(position_key(c)) {
            self.chunks@[position_key(c)]
        } else {
            ChunkSlot::Unloaded
        }
    }

    /// True when the map has an entry for the coordinate.
    pub open spec fn tracks(self, c: ChunkPosition) -> bool {
        self.chunks@.contains_key(position_key(c))
    }

    /// An empty world index with the given settings.
    pub fn new(settings: VoxelMapSettings) -> (m: VoxelMap)
        ensures
            m.wf(),
            m.settings == settings,
            forall|c: ChunkPosition| #[trigger] m.state_of(c) is Unloaded,
            m.loaded@.len() == 0,
    {
        VoxelMap {
            chunks: vstd::hash_map::HashMapWithView::new(),
            loaded: Vec::new(),
            settings,
        }
    }

    /// True when the coordinate lies inside the world bounds.
    pub fn check_in_bounds(&self, c: ChunkPosition) -> (r: bool)
        ensures
            r == self.in_bounds(c),
    {
        !c.exceeds_bounds(self.settings.bounds)
    }

    /// Reads the slot of a coordinate. Returns `None` for an out-of-bounds
    /// coordinate, and the (possibly conceptual) `Unloaded` slot state
    /// otherwise; never creates an entry.
    pub fn get_slot(&self, c: ChunkPosition) -> (r: Option<&ChunkSlot>)
        requires
            self.wf(),
        ensures
            match r {
                Some(slot) => self.in_bounds(c) && *slot == self.state_of(c) && self.tracks(c),
                None => !self.in_bounds(c) || !self.tracks(c),
            },
    {
        if !self.check_in_bounds(c) {
            return None;
        }
        let key = make_key(c);
        self.chunks.get(&key)
    }

    /// Returns the existing slot of an in-bounds coordinate, inserting a
    /// fresh `Unloaded` slot the first time the coordinate is referenced.
    /// Returns `None` for an out-of-bounds coordinate: no entry is created,
    /// there is nothing to do there.
    pub fn get_or_create_slot(&mut self, c: ChunkPosition) -> (r: Option<&ChunkSlot>)
        requires
            old(self).wf(),
        ensures
            final(self).wf(),
            final(self).settings == old(self).settings,
            forall|c2: ChunkPosition| #[trigger] final(self).state_of(c2) == old(self).state_of(c2),
            match r {
                Some(slot) => old(self).in_bounds(c) && *slot == old(self).state_of(c)
                    && final(self).tracks(c),
                None => !old(self).in_bounds(c) && *final(self) == *old(self),
            },
    {
        if !self.check_in_bounds(c) {
            return None;
        }
        let key = make_key(c);
        if !self.chunks.contains_key(&key) {
            self.chunks.insert(key, ChunkSlot::Unloaded);
            self.loaded.push(c);
            proof {
                lemma_insert_preserves_wf(*old(self), *self, c, ChunkSlot::Unloaded);
                assert forall|c2: ChunkPosition| #[trigger] self.state_of(c2) == old(self).state_of(
                    c2,
                ) by {
                    if position_key(c2) == position_key(c) {
                        lemma_position_key_injective(c2, c);
                    }
                }
            }
        }
        self.chunks.get(&key)
    }

    /// Stores a slot state for an in-bounds coordinate, creating the entry
    /// if the coordinate was never referenced. Every other coordinate's
    /// state is unchanged.
    pub fn set_slot(&mut self, c: ChunkPosition, slot: ChunkSlot)
        requires
            old(self).wf(),
            old(self).in_bounds(c),
        ensures
            final(self).wf(),
            final(self).settings == old(self).settings,
            final(self).state_of(c) == slot,
            final(self).tracks(c),
            forall|c2: ChunkPosition|
                c2 != c ==> #[trigger] final(self).state_of(c2) == old(self).state_of(c2),
    {
        let key = make_key(c);
        let was_tracked = self.chunks.contains_key(&key);
        self.chunks.insert(key, slot);
        if !was_tracked {
            self.loaded.push(c);
        }
        proof {
            lemma_insert_preserves_wf(*old(self), *self, c, slot);
            assert forall|c2: ChunkPosition| c2 != c implies #[trigger] self.state_of(c2) == old(self).state_of(
                c2,
            ) by {
                if position_key(c2) == position_key(c) {
                    lemma_position_key_injective(c2, c);
                }
            }
        }
    }

    /// Replaces the slot of a tracked coordinate and hands back the slot it
    /// held, so a state transition can reuse the stored chunk without
    /// copying it. Every other coordinate's state is unchanged.
    pub fn replace_slot(&mut self, c: ChunkPosition, slot: ChunkSlot) -> (prev: ChunkSlot)
        requires
            old(self).wf(),
            old(self).in_bounds(c),
            old(self).tracks(c),
        ensures
            final(self).wf(),
            final(self).settings == old(self).settings,
            prev == old(self).state_of(c),
            final(self).state_of(c) == slot,
            final(self).tracks(c),
            forall|c2: ChunkPosition|
                c2 != c ==> #[trigger] final(self).state_of(c2) == old(self).state_of(c2),
    {
        let key = make_key(c);
        let removed = self.chunks.remove(&key);
        self.chunks.insert(key, slot);
        proof {
            assert(self.chunks@ =~= old(self).chunks@.insert(position_key(c), slot));
            assert(self.loaded@ == old(self).loaded@);
            lemma_insert_preserves_wf(*old(self), *self, c, slot);
            assert forall|c2: ChunkPosition| c2 != c implies #[trigger] self.state_of(c2)
                == old(self).state_of(c2) by {
                if position_key(c2) == position_key(c) {
                    lemma_position_key_injective(c2, c);
                }
            }
        }
        match removed {
            Some(prev) => prev,
            None => vstd::pervasive::unreached(),
        }
    }

    /// Removes a coordinate's entry, reverting it to `Unloaded` and freeing
    /// its chunk and mesh data. Returns the stored mesh handle, if the slot
    /// held one, so the caller can remove the render mesh. Every other
    /// coordinate's state is unchanged.
    pub fn remove_slot(&mut self, c: ChunkPosition) -> (r: Option<MeshHandle>)
        requires
            old(self).wf(),
        ensures
            final(self).wf(),
            final(self).settings == old(self).settings,
            final(self).state_of(c) is Unloaded,
            !final(self).tracks(c),
            forall|c2: ChunkPosition|
                c2 != c ==> #[trigger] final(self).state_of(c2) == old(self).state_of(c2),
            r == (match old(self).state_of(c) {
                ChunkSlot::Meshed(_, handle) => Some(handle),
                _ => None,
            }),
    {
        let key = make_key(c);
        let removed = self.chunks.remove(&key);
        let ghost loaded0 = self.loaded@;
        let mut i: usize = 0;
        let mut found = false;
        while !found && i < self.loaded.len()
            invariant
                i <= self.loaded@.len(),
                self.loaded@ == loaded0,
                forall|j: int| 0 <= j < i as int ==> #[trigger] loaded0[j] != c,
                found ==> i < self.loaded@.len() && loaded0[i as int] == c,
            decreases self.loaded@.len() - i + (if found {
                0int
            } else {
                1int
            }),
        {
            if self.loaded[i] == c {
                found = true;
            } else {
                i += 1;
            }
        }
        if found {
            self.loaded.remove(i);
        }
        proof {
            if !old(self).chunks@.contains_key(position_key(c)) {
                assert(self.chunks@ =~= old(self).chunks@.remove(position_key(c)));
            }
            lemma_remove_preserves_wf(*old(self), *self, c, i as int, found);
            assert forall|c2: ChunkPosition| c2 != c implies #[trigger] self.state_of(c2) == old(self).state_of(
                c2,
            ) by {
                if position_key(c2) == position_key(c) {
                    lemma_position_key_injective(c2, c);
                }
            }
        }
        match removed {
            Some(ChunkSlot::Meshed(_, handle)) => Some(handle),
            _ => None,
        }
    }

    /// Reads the chunk stored for a coordinate: `None` for an out-of-bounds
    /// coordinate, and `None` while the coordinate holds no generated chunk.
    pub fn get_chunk(&self, position: ChunkPosition) -> (r: Option<&Chunk>)
        requires
            self.wf(),
        ensures
            match r {
                Some(chunk) => self.in_bounds(position) && self.state_of(position).chunk()
                    == Some(*chunk),
                None => !self.in_bounds(position) || self.state_of(position).chunk() is None,
            },
    {
        if !self.check_in_bounds(position) {
            return None;
        }
        let key = make_key(position);
        match self.chunks.get(&key) {
            Some(ChunkSlot::Generated(c)) => Some(c),
            Some(ChunkSlot::Meshing(c)) => Some(c),
            Some(ChunkSlot::Meshed(c, _)) => Some(c),
            _ => None,
        }
    }

    /// The number of coordinates that currently have an entry.
    pub fn loaded_count(&self) -> (n: usize)
        ensures
            n == self.loaded@.len(),
    {
        self.loaded.len()
    }

    /// The coordinate of the entry at `i` in the loaded list.
    pub fn loaded_at(&self, i: usize) -> (c: ChunkPosition)
        requires
            i < self.loaded@.len(),
        ensures
            c == self.loaded@[i as int],
    {
        self.loaded[i]
    }
}

impl Default for VoxelMap {
    /// An empty world index with the default settings.
    fn default() -> (m: VoxelMap)
        ensures
            m.wf(),
            m.settings.bounds == (ChunkPosition { x: 500, y: 20, z: 500 }),
            forall|c: ChunkPosition| #[trigger] m.state_of(c) is Unloaded,
    {
        VoxelMap::new(VoxelMapSettings::default())
    }
}

/// No slot ever exists for an out-of-bounds coordinate: such a coordinate is
/// always `Unloaded`.
pub proof fn lemma_untracked_when_out_of_bounds(m: VoxelMap, c: ChunkPosition)
    requires
        m.wf(),
        !m.in_bounds(c),
    ensures
        !m.tracks(c),
        m.state_of(c) is Unloaded,
{
    if m.tracks(c) {
        let i = choose|i: int|
            0 <= i < m.loaded@.len() && position_key(c) == position_key(#[trigger] m.loaded@[i]);
        lemma_position_key_injective(c, m.loaded@[i]);
    }
}

/// Inserting a slot for an in-bounds coordinate, and appending it to the
/// loaded list when it was untracked, preserves the index invariant.
proof fn lemma_insert_preserves_wf(pre: VoxelMap, post: VoxelMap, c: ChunkPosition, slot: ChunkSlot)
    requires
        pre.wf(),
        pre.in_bounds(c),
        post.settings == pre.settings,
        post.chunks@ == pre.chunks@.insert(position_key(c), slot),
        post.loaded@ == if pre.tracks(c) {
            pre.loaded@
        } else {
            pre.loaded@.push(c)
        },
    ensures
        post.wf(),
{
    if pre.tracks(c) {
        assert forall|k: u128| #[trigger] post.chunks@.contains_key(k) implies exists|i: int|
            0 <= i < post.loaded@.len() && k == position_key(post.loaded@[i]) by {
            assert(pre.chunks@.contains_key(k));
        }
    } else {
        let n = pre.loaded@.len() as int;
        assert(post.loaded@[n] == c);
        assert forall|i: int| 0 <= i < post.loaded@.len() implies post.in_bounds(
            #[trigger] post.loaded@[i],
        ) by {
            if i < n {
                assert(post.loaded@[i] == pre.loaded@[i]);
                assert(pre.in_bounds(pre.loaded@[i]));
            }
        }
        assert forall|i: int, j: int| 0 <= i < j < post.loaded@.len() implies #[trigger] post.loaded@[i]
            != #[trigger] post.loaded@[j] by {
            if j == n {
                assert(post.loaded@[j] == c);
                if post.loaded@[i] == c {
                    assert(pre.chunks@.contains_key(position_key(pre.loaded@[i])));
                }
            } else {
                assert(post.loaded@[i] == pre.loaded@[i] && post.loaded@[j] == pre.loaded@[j]);
            }
        }
        assert forall|k: u128| #[trigger] post.chunks@.contains_key(k) implies exists|i: int|
            0 <= i < post.loaded@.len() && k == position_key(post.loaded@[i]) by {
            if k == position_key(c) {
                assert(k == position_key(post.loaded@[n]));
            } else {
                assert(pre.chunks@.contains_key(k));
                let i = choose|i: int|
                    0 <= i < pre.loaded@.len() && k == position_key(#[trigger] pre.loaded@[i]);
                assert(k == position_key(post.loaded@[i]));
            }
        }
        assert forall|i: int|
            0 <= i < post.loaded@.len() implies post.chunks@.contains_key(
            position_key(#[trigger] post.loaded@[i]),
        ) by {
            if i < n {
                assert(post.loaded@[i] == pre.loaded@[i]);
                if position_key(pre.loaded@[i]) != position_key(c) {
                    assert(pre.chunks@.contains_key(position_key(pre.loaded@[i])));
                }
            }
        }
    }
}

/// Removing a coordinate's entry and deleting it from the loaded list
/// preserves the index invariant.
proof fn lemma_remove_preserves_wf(
    pre: VoxelMap,
    post: VoxelMap,
    c: ChunkPosition,
    i: int,
    found: bool,
)
    requires
        pre.wf(),
        post.settings == pre.settings,
        post.chunks@ == pre.chunks@.remove(position_key(c)),
        found ==> 0 <= i < pre.loaded@.len() && pre.loaded@[i] == c && post.loaded@
            == pre.loaded@.remove(i),
        !found ==> post.loaded@ == pre.loaded@ && (forall|j: int|
            0 <= j < pre.loaded@.len() ==> #[trigger] pre.loaded@[j] != c),
    ensures
        post.wf(),
{
    let loaded0 = pre.loaded@;
    assert forall|t: int| 0 <= t < post.loaded@.len() implies #[trigger] post.loaded@[t]
        == loaded0[if found && t >= i {
        t + 1
    } else {
        t
    }] && post.loaded@[t] != c by {
        if found {
            if t < i {
                assert(post.loaded@[t] == loaded0[t]);
            } else {
                assert(post.loaded@[t] == loaded0[t + 1]);
            }
            let orig = if t >= i {
                t + 1
            } else {
                t
            };
            if loaded0[orig] == c {
                assert(loaded0[i] == c);
                assert(orig != i);
                assert(loaded0[orig] != loaded0[i]);
            }
        }
    }
    assert forall|t: int|
        0 <= t < post.loaded@.len() implies post.in_bounds(#[trigger] post.loaded@[t])
        && post.chunks@.contains_key(position_key(post.loaded@[t])) by {
        let orig = if found && t >= i {
            t + 1
        } else {
            t
        };
        assert(post.loaded@[t] == loaded0[orig]);
        assert(pre.in_bounds(loaded0[orig]));
        assert(pre.chunks@.contains_key(position_key(loaded0[orig])));
        if position_key(post.loaded@[t]) == position_key(c) {
            lemma_position_key_injective(post.loaded@[t], c);
        }
    }
    assert forall|t1: int, t2: int| 0 <= t1 < t2 < post.loaded@.len() implies #[trigger] post.loaded@[t1]
        != #[trigger] post.loaded@[t2] by {
        let o1 = if found && t1 >= i {
            t1 + 1
        } else {
            t1
        };
        let o2 = if found && t2 >= i {
            t2 + 1
        } else {
            t2
        };
        assert(post.loaded@[t1] == loaded0[o1] && post.loaded@[t2] == loaded0[o2]);
        assert(o1 < o2);
    }
    assert forall|k: u128| #[trigger] post.chunks@.contains_key(k) implies exists|t: int|
        0 <= t < post.loaded@.len() && k == position_key(post.loaded@[t]) by {
        assert(pre.chunks@.contains_key(k));
        let t0 = choose|t0: int|
            0 <= t0 < loaded0.len() && k == position_key(#[trigger] loaded0[t0]);
        assert(k != position_key(c));
        if found {
            assert(loaded0[i] == c);
            assert(t0 != i);
            if t0 < i {
                assert(post.loaded@[t0] == loaded0[t0]);
            } else {
                assert(post.loaded@[t0 - 1] == loaded0[t0]);
            }
        } else {
            assert(post.loaded@[t0] == loaded0[t0]);
        }
    }
}

} // verus!

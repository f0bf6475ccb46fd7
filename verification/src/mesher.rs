//! Greedy surface extraction. For each of the six face orientations and each
//! slice of the padded sample volume, a voxel face is a candidate quad
//! exactly when the voxel is opaque and its neighbor across the face is
//! empty; adjacent candidates of equal material are merged into maximal
//! rectangles, and each rectangle is emitted as one quad of four vertices
//! and six indices.

use vstd::prelude::*;

use crate::chunk::Chunk;
use crate::meshing_chunk::{seq_sample, MeshingChunk};
use crate::voxel::{Voxel, EMPTY_MATERIAL};

verus! {

/// One of the six face orientations of a voxel cube.
#[derive(Clone, Copy, PartialEq, Eq, Structural, Debug)]
pub enum Face {
    XNeg,
    XPos,
    YNeg,
    YPos,
    ZNeg,
    ZPos,
}

impl Face {
    /// True for the faces that look along the positive direction of their axis.
    pub open spec fn positive(self) -> bool {
        self == Face::XPos || self == Face::YPos || self == Face::ZPos
    }

    /// A fixed numbering of the six orientations.
    pub open spec fn index_spec(self) -> int {
        match self {
            Face::XNeg => 0,
            Face::XPos => 1,
            Face::YNeg => 2,
            Face::YPos => 3,
            Face::ZNeg => 4,
            Face::ZPos => 5,
        }
    }

    /// The x component of the orientation's unit normal.
    pub open spec fn normal_x(self) -> int {
        match self {
            Face::XNeg => -1,
            Face::XPos => 1,
            _ => 0,
        }
    }

    /// The y component of the orientation's unit normal.
    pub open spec fn normal_y(self) -> int {
        match self {
            Face::YNeg => -1,
            Face::YPos => 1,
            _ => 0,
        }
    }

    /// The z component of the orientation's unit normal.
    pub open spec fn normal_z(self) -> int {
        match self {
            Face::ZNeg => -1,
            Face::ZPos => 1,
            _ => 0,
        }
    }

    /// The x coordinate of the cell at slice `u`, in-slice position (a, b).
    /// X faces slice along x with (a, b) = (y, z); Y faces slice along y
    /// with (a, b) = (x, z); Z faces slice along z with (a, b) = (x, y).
    pub open spec fn cell_x(self, u: int, a: int, b: int) -> int {
        match self {
            Face::XNeg | Face::XPos => u,
            _ => a,
        }
    }

    /// The y coordinate of the cell at slice `u`, in-slice position (a, b).
    pub open spec fn cell_y(self, u: int, a: int, b: int) -> int {
        match self {
            Face::XNeg | Face::XPos => a,
            Face::YNeg | Face::YPos => u,
            _ => b,
        }
    }

    /// The z coordinate of the cell at slice `u`, in-slice position (a, b).
    pub open spec fn cell_z(self, u: int, a: int, b: int) -> int {
        match self {
            Face::ZNeg | Face::ZPos => u,
            _ => b,
        }
    }
}

/// The orientation with the given number.
pub fn face_of_index(i: usize) -> (f: Face)
    requires
        i < 6,
    ensures
        f.index_spec() == i as int,
{
    match i {
        0 => Face::XNeg,
        1 => Face::XPos,
        2 => Face::YNeg,
        3 => Face::YPos,
        4 => Face::ZNeg,
        _ => Face::ZPos,
    }
}

/// The occlusion test over a padded sample sequence: the face of the cell at
/// slice `u`, in-slice position (a, b) is a candidate surface quad exactly
/// when its voxel is opaque and the voxel across the face is empty.
pub open spec fn face_visible(s: Seq<Voxel>, f: Face, u: int, a: int, b: int) -> bool {
    let x = f.cell_x(u, a, b);
    let y = f.cell_y(u, a, b);
    let z = f.cell_z(u, a, b);
    &&& seq_sample(s, x + 1, y + 1, z + 1).is_opaque_spec()
    &&& !seq_sample(
        s,
        x + 1 + f.normal_x(),
        y + 1 + f.normal_y(),
        z + 1 + f.normal_z(),
    ).is_opaque_spec()
}

/// The material of the cell at slice `u`, in-slice position (a, b).
pub open spec fn cell_material(s: Seq<Voxel>, f: Face, u: int, a: int, b: int) -> u16 {
    seq_sample(s, f.cell_x(u, a, b) + 1, f.cell_y(u, a, b) + 1, f.cell_z(u, a, b) + 1).0
}

/// One merged rectangle of same-material visible faces: `w` by `h` cells of
/// slice `u` of orientation `face`, starting at in-slice position (a, b).
#[derive(Clone, Copy, PartialEq, Eq, Structural, Debug)]
pub struct Quad {
    pub face: Face,
    pub u: usize,
    pub a: usize,
    pub b: usize,
    pub w: usize,
    pub h: usize,
    pub material: u16,
}

/// A quad that lies inside its slice and is at least one cell in each
/// direction.
pub open spec fn quad_wf(q: Quad) -> bool {
    &&& q.u < 32
    &&& 1 <= q.w
    &&& 1 <= q.h
    &&& q.a + q.w <= 32
    &&& q.b + q.h <= 32
}

/// True when the quad covers the cell at in-slice position (a, b) of slice
/// `u` of orientation `f`.
pub open spec fn quad_covers(q: Quad, f: Face, u: int, a: int, b: int) -> bool {
    &&& q.face == f
    &&& q.u as int == u
    &&& q.a as int <= a < q.a as int + q.w as int
    &&& q.b as int <= b < q.b as int + q.h as int
}

/// A quad that covers only visible faces, all of its own material.
pub open spec fn quad_sound(s: Seq<Voxel>, q: Quad) -> bool {
    &&& quad_wf(q)
    &&& forall|a: int, b: int|
        q.a as int <= a < q.a as int + q.w as int && q.b as int <= b < q.b as int + q.h as int
            ==> #[trigger] face_visible(s, q.face, q.u as int, a, b) && cell_material(
            s,
            q.face,
            q.u as int,
            a,
            b,
        ) == q.material
}

/// True when some quad of the list covers the given cell.
pub open spec fn covered(quads: Seq<Quad>, f: Face, u: int, a: int, b: int) -> bool {
    exists|k: int| 0 <= k < quads.len() && quad_covers(#[trigger] quads[k], f, u, a, b)
}

/// Two quads that share no cell: they differ in orientation or slice, or
/// their rectangles are separated along one in-slice axis.
pub open spec fn quads_disjoint(q1: Quad, q2: Quad) -> bool {
    ||| q1.face != q2.face
    ||| q1.u != q2.u
    ||| q1.a as int + q1.w as int <= q2.a as int
    ||| q2.a as int + q2.w as int <= q1.a as int
    ||| q1.b as int + q1.h as int <= q2.b as int
    ||| q2.b as int + q2.h as int <= q1.b as int
}

/// No two quads of the list share a cell.
pub open spec fn pairwise_disjoint(quads: Seq<Quad>) -> bool {
    forall|k1: int, k2: int|
        0 <= k1 < k2 < quads.len() ==> quads_disjoint(#[trigger] quads[k1], #[trigger] quads[k2])
}

/// Appending a quad covers exactly the cells covered before plus those of
/// the new quad.
pub proof fn lemma_covered_push(quads: Seq<Quad>, q: Quad, f: Face, u: int, a: int, b: int)
    ensures
        covered(quads.push(q), f, u, a, b) <==> (covered(quads, f, u, a, b) || quad_covers(
            q,
            f,
            u,
            a,
            b,
        )),
{
    let s2 = quads.push(q);
    assert(s2[quads.len() as int] == q);
    if covered(s2, f, u, a, b) {
        let k = choose|k: int| 0 <= k < s2.len() && quad_covers(#[trigger] s2[k], f, u, a, b);
        if k < quads.len() {
            assert(quad_covers(quads[k], f, u, a, b));
        }
    }
    if covered(quads, f, u, a, b) {
        let k = choose|k: int| 0 <= k < quads.len() && quad_covers(#[trigger] quads[k], f, u, a, b);
        assert(quad_covers(s2[k], f, u, a, b));
    }
}

/// Two well-formed quads that are not disjoint share a specific cell: the
/// lower-left corner of the intersection of their rectangles.
pub proof fn lemma_overlap_cell(q1: Quad, q2: Quad)
    requires
        quad_wf(q1),
        quad_wf(q2),
        !quads_disjoint(q1, q2),
    ensures
        quad_covers(
            q1,
            q1.face,
            q1.u as int,
            vstd::math::max(q1.a as int, q2.a as int),
            vstd::math::max(q1.b as int, q2.b as int),
        ),
        quad_covers(
            q2,
            q1.face,
            q1.u as int,
            vstd::math::max(q1.a as int, q2.a as int),
            vstd::math::max(q1.b as int, q2.b as int),
        ),
{
}

/// Distinct in-slice positions map to distinct mask indices.
proof fn lemma_mask_index_injective()
    ensures
        forall|i1: int, j1: int, i2: int, j2: int|
            0 <= i1 < 32 && 0 <= j1 < 32 && 0 <= i2 < 32 && 0 <= j2 < 32 && #[trigger] (i1 + 32
                * j1) == #[trigger] (i2 + 32 * j2) ==> i1 == i2 && j1 == j2,
{
}

impl MeshingChunk {
    /// Decides the occlusion test for one cell of one slice.
    fn face_visible_at(&self, f: Face, u: usize, a: usize, b: usize) -> (r: bool)
        requires
            self.wf(),
            u < 32,
            a < 32,
            b < 32,
        ensures
            r == face_visible(self.samples@, f, u as int, a as int, b as int),
    {
        let (x, y, z) = face_cell(f, u, a, b);
        let own = self.get_sample(x + 1, y + 1, z + 1);
        let (nx, ny, nz) = match f {
            Face::XNeg => (x, y + 1, z + 1),
            Face::XPos => (x + 2, y + 1, z + 1),
            Face::YNeg => (x + 1, y, z + 1),
            Face::YPos => (x + 1, y + 2, z + 1),
            Face::ZNeg => (x + 1, y + 1, z),
            Face::ZPos => (x + 1, y + 1, z + 2),
        };
        let neighbor = self.get_sample(nx, ny, nz);
        own.0 != EMPTY_MATERIAL && neighbor.0 == EMPTY_MATERIAL
    }

    /// Reads the material of one cell of one slice.
    fn cell_material_at(&self, f: Face, u: usize, a: usize, b: usize) -> (m: u16)
        requires
            self.wf(),
            u < 32,
            a < 32,
            b < 32,
        ensures
            m == cell_material(self.samples@, f, u as int, a as int, b as int),
    {
        let (x, y, z) = face_cell(f, u, a, b);
        self.get_sample(x + 1, y + 1, z + 1).0
    }

    /// True only if the whole row of `w` cells at height `b2` extends the
    /// rectangle being grown: every cell visible, unvisited, and of the
    /// rectangle's material.
    fn row_extendable(
        &self,
        visited: &Vec<bool>,
        f: Face,
        u: usize,
        a: usize,
        w: usize,
        b2: usize,
        m: u16,
    ) -> (r: bool)
        requires
            self.wf(),
            u < 32,
            a < 32,
            b2 < 32,
            1 <= w,
            a + w <= 32,
            visited@.len() == 1024,
        ensures
            r ==> forall|i: int|
                a as int <= i < a as int + w as int ==> #[trigger] face_visible(
                    self.samples@,
                    f,
                    u as int,
                    i,
                    b2 as int,
                ) && !visited@[i + 32 * b2 as int] && cell_material(
                    self.samples@,
                    f,
                    u as int,
                    i,
                    b2 as int,
                ) == m,
    {
        let mut k: usize = 0;
        while k < w
            invariant
                k <= w,
                self.wf(),
                u < 32,
                a < 32,
                b2 < 32,
                1 <= w,
                a + w <= 32,
                visited@.len() == 1024,
                forall|i: int|
                    a as int <= i < a as int + k as int ==> #[trigger] face_visible(
                        self.samples@,
                        f,
                        u as int,
                        i,
                        b2 as int,
                    ) && !visited@[i + 32 * b2 as int] && cell_material(
                        self.samples@,
                        f,
                        u as int,
                        i,
                        b2 as int,
                    ) == m,
            decreases w - k,
        {
            let i = a + k;
            if !self.face_visible_at(f, u, i, b2) {
                return false;
            }
            if visited[i + 32 * b2] {
                return false;
            }
            if self.cell_material_at(f, u, i, b2) != m {
                return false;
            }
            k += 1;
        }
        true
    }

    /// Greedily merges the visible faces of one slice of one orientation
    /// into disjoint same-material rectangles that together cover exactly
    /// the visible cells of the slice.
    fn mesh_slice(&self, f: Face, u: usize) -> (quads: Vec<Quad>)
        requires
            self.wf(),
            u < 32,
        ensures
            forall|k: int|
                0 <= k < quads@.len() ==> (#[trigger] quads@[k]).face == f && quads@[k].u == u
                    && quad_sound(self.samples@, quads@[k]),
            forall|a: int, b: int|
                0 <= a < 32 && 0 <= b < 32 && #[trigger] face_visible(
                    self.samples@,
                    f,
                    u as int,
                    a,
                    b,
                ) ==> covered(quads@, f, u as int, a, b),
            pairwise_disjoint(quads@),
            quads@.len() <= 1024,
    {
        let ghost s = self.samples@;
        let mut visited: Vec<bool> = Vec::with_capacity(1024);
        let mut n: usize = 0;
        while n < 1024
            invariant
                n <= 1024,
                visited@.len() == n as int,
                forall|j: int| 0 <= j < n as int ==> !visited@[j],
            decreases 1024 - n,
        {
            visited.push(false);
            n += 1;
        }
        let mut quads: Vec<Quad> = Vec::new();
        let mut b: usize = 0;
        while b < 32
            invariant
                b <= 32,
                self.wf(),
                u < 32,
                s == self.samples@,
                visited@.len() == 1024,
                quads@.len() <= 32 * b as int,
                forall|i: int, j: int|
                    0 <= i < 32 && 0 <= j < 32 ==> (#[trigger] visited@[i + 32 * j] == covered(
                        quads@,
                        f,
                        u as int,
                        i,
                        j,
                    )),
                forall|k: int|
                    0 <= k < quads@.len() ==> (#[trigger] quads@[k]).face == f && quads@[k].u == u
                        && quad_sound(s, quads@[k]),
                pairwise_disjoint(quads@),
                forall|i: int, j: int|
                    0 <= i < 32 && 0 <= j < b as int && #[trigger] face_visible(s, f, u as int, i, j)
                        ==> visited@[i + 32 * j],
            decreases 32 - b,
        {
            let mut a: usize = 0;
            while a < 32
                invariant
                    a <= 32,
                    b < 32,
                    self.wf(),
                    u < 32,
                    s == self.samples@,
                    visited@.len() == 1024,
                    quads@.len() <= 32 * b as int + a as int,
                    forall|i: int, j: int|
                        0 <= i < 32 && 0 <= j < 32 ==> (#[trigger] visited@[i + 32 * j] == covered(
                            quads@,
                            f,
                            u as int,
                            i,
                            j,
                        )),
                    forall|k: int|
                        0 <= k < quads@.len() ==> (#[trigger] quads@[k]).face == f && quads@[k].u
                            == u && quad_sound(s, quads@[k]),
                    pairwise_disjoint(quads@),
                    forall|i: int, j: int|
                        0 <= i < 32 && 0 <= j < 32 && (j < b as int || (j == b as int && i
                            < a as int)) && #[trigger] face_visible(s, f, u as int, i, j)
                            ==> visited@[i + 32 * j],
                decreases 32 - a,
            {
                let seed_visible = self.face_visible_at(f, u, a, b);
                let seed_visited = visited[a + 32 * b];
                if seed_visible && !seed_visited {
                    let m = self.cell_material_at(f, u, a, b);
                    // Grow the rectangle rightward along the row.
                    let mut w: usize = 1;
                    let mut growing = true;
                    while growing && a + w < 32
                        invariant
                            1 <= w,
                            a + w <= 32,
                            a < 32,
                            b < 32,
                            u < 32,
                            self.wf(),
                            s == self.samples@,
                            visited@.len() == 1024,
                            forall|i: int|
                                a as int <= i < a as int + w as int ==> #[trigger] face_visible(
                                    s,
                                    f,
                                    u as int,
                                    i,
                                    b as int,
                                ),
                            forall|i: int|
                                a as int <= i < a as int + w as int ==> !(#[trigger] visited@[i + 32
                                    * b as int]),
                            forall|i: int|
                                a as int <= i < a as int + w as int ==> #[trigger] cell_material(
                                    s,
                                    f,
                                    u as int,
                                    i,
                                    b as int,
                                ) == m,
                        decreases 32 - (a + w) + (if growing { 1int } else { 0int }),
                    {
                        let i = a + w;
                        let ok = self.face_visible_at(f, u, i, b) && !visited[i + 32 * b]
                            && self.cell_material_at(f, u, i, b) == m;
                        if ok {
                            w += 1;
                            proof {
                                assert forall|i2: int|
                                    a as int <= i2 < a as int + w as int implies
                                    #[trigger] face_visible(s, f, u as int, i2, b as int)
                                    && !visited@[i2 + 32 * b as int] && cell_material(
                                    s,
                                    f,
                                    u as int,
                                    i2,
                                    b as int,
                                ) == m by {
                                    if i2 == i as int {
                                        assert(face_visible(s, f, u as int, i as int, b as int));
                                    } else {
                                        assert(face_visible(s, f, u as int, i2, b as int));
                                    }
                                }
                            }
                        } else {
                            growing = false;
                        }
                    }
                    proof {
                        // The grown row is the h = 1 rectangle.
                        assert forall|i: int, j: int|
                            a as int <= i < a as int + w as int && b as int <= j < b as int
                                + 1 implies #[trigger] face_visible(s, f, u as int, i, j) by {
                            assert(face_visible(s, f, u as int, i, b as int));
                        }
                        assert forall|i: int, j: int|
                            a as int <= i < a as int + w as int && b as int <= j < b as int
                                + 1 implies !(#[trigger] visited@[i + 32 * j]) by {
                            assert(!visited@[i + 32 * b as int]);
                        }
                        assert forall|i: int, j: int|
                            a as int <= i < a as int + w as int && b as int <= j < b as int
                                + 1 implies #[trigger] cell_material(s, f, u as int, i, j)
                            == m by {
                            assert(cell_material(s, f, u as int, i, b as int) == m);
                        }
                    }
                    // Grow the rectangle upward a full row at a time.
                    let mut h: usize = 1;
                    growing = true;
                    while growing && b + h < 32
                        invariant
                            1 <= h,
                            b + h <= 32,
                            1 <= w,
                            a + w <= 32,
                            a < 32,
                            b < 32,
                            u < 32,
                            self.wf(),
                            s == self.samples@,
                            visited@.len() == 1024,
                            forall|i: int, j: int|
                                a as int <= i < a as int + w as int && b as int <= j < b as int
                                    + h as int ==> #[trigger] face_visible(s, f, u as int, i, j),
                            forall|i: int, j: int|
                                a as int <= i < a as int + w as int && b as int <= j < b as int
                                    + h as int ==> !(#[trigger] visited@[i + 32 * j]),
                            forall|i: int, j: int|
                                a as int <= i < a as int + w as int && b as int <= j < b as int
                                    + h as int ==> #[trigger] cell_material(s, f, u as int, i, j)
                                    == m,
                        decreases 32 - (b + h) + (if growing { 1int } else { 0int }),
                    {
                        let b2 = b + h;
                        if self.row_extendable(&visited, f, u, a, w, b2, m) {
                            h += 1;
                            proof {
                                assert forall|i: int, j: int|
                                    a as int <= i < a as int + w as int && b as int <= j < b as int
                                        + h as int implies #[trigger] face_visible(
                                    s,
                                    f,
                                    u as int,
                                    i,
                                    j,
                                ) by {
                                    if j == b2 as int {
                                        assert(face_visible(s, f, u as int, i, b2 as int));
                                    } else {
                                        assert(face_visible(s, f, u as int, i, j));
                                    }
                                }
                                assert forall|i: int, j: int|
                                    a as int <= i < a as int + w as int && b as int <= j < b as int
                                        + h as int implies !(#[trigger] visited@[i + 32 * j]) by {
                                    if j == b2 as int {
                                        assert(face_visible(s, f, u as int, i, b2 as int));
                                        assert(!visited@[i + 32 * b2 as int]);
                                    } else {
                                        assert(!visited@[i + 32 * j]);
                                    }
                                }
                                assert forall|i: int, j: int|
                                    a as int <= i < a as int + w as int && b as int <= j < b as int
                                        + h as int implies #[trigger] cell_material(
                                    s,
                                    f,
                                    u as int,
                                    i,
                                    j,
                                ) == m by {
                                    if j == b2 as int {
                                        assert(face_visible(s, f, u as int, i, b2 as int));
                                        assert(cell_material(s, f, u as int, i, b2 as int) == m);
                                    } else {
                                        assert(cell_material(s, f, u as int, i, j) == m);
                                    }
                                }
                            }
                        } else {
                            growing = false;
                        }
                    }
                    let q = Quad { face: f, u, a, b, w, h, material: m };
                    let ghost visited0 = visited@;
                    let ghost quads0 = quads@;
                    // Mark the rectangle as emitted.
                    let mut j: usize = b;
                    while j < b + h
                        invariant
                            b as int <= j as int <= b as int + h as int,
                            1 <= w,
                            1 <= h,
                            a as int + w as int <= 32,
                            b as int + h as int <= 32,
                            a < 32,
                            b < 32,
                            visited@.len() == 1024,
                            visited0.len() == 1024,
                            forall|i2: int, j2: int|
                                0 <= i2 < 32 && 0 <= j2 < 32 ==> #[trigger] visited@[i2 + 32 * j2]
                                    == (visited0[i2 + 32 * j2] || (a as int <= i2 < a as int
                                    + w as int && b as int <= j2 < j as int)),
                        decreases b + h - j,
                    {
                        let mut i: usize = a;
                        while i < a + w
                            invariant
                                a as int <= i as int <= a as int + w as int,
                                b as int <= j as int && (j as int) < b as int + h as int,
                                1 <= w,
                                a as int + w as int <= 32,
                                b as int + h as int <= 32,
                                visited@.len() == 1024,
                                visited0.len() == 1024,
                                forall|i2: int, j2: int|
                                    0 <= i2 < 32 && 0 <= j2 < 32 ==> #[trigger] visited@[i2 + 32
                                        * j2] == (visited0[i2 + 32 * j2] || (a as int <= i2
                                        < a as int + w as int && b as int <= j2 < j as int) || (
                                    b as int <= j2 && j2 == j as int && a as int <= i2
                                        < i as int)),
                            decreases a + w - i,
                        {
                            visited.set(i + 32 * j, true);
                            proof {
                                lemma_mask_index_injective();
                            }
                            i += 1;
                        }
                        j += 1;
                    }
                    quads.push(q);
                    proof {
                        assert(quads@ == quads0.push(q));
                        assert(quad_sound(s, q));
                        // The new quad is disjoint from every earlier one:
                        // its cells were unvisited, covered cells are not.
                        assert forall|k: int| 0 <= k < quads0.len() implies quads_disjoint(
                            quads0[k],
                            q,
                        ) by {
                            if !quads_disjoint(quads0[k], q) {
                                lemma_overlap_cell(quads0[k], q);
                                let ia = vstd::math::max(quads0[k].a as int, q.a as int);
                                let jb = vstd::math::max(quads0[k].b as int, q.b as int);
                                assert(quad_covers(quads0[k], f, u as int, ia, jb));
                                assert(covered(quads0, f, u as int, ia, jb));
                                assert(visited0[ia + 32 * jb]);
                                // But the cell lies inside the new quad's
                                // rectangle, whose cells were all unvisited.
                                assert(face_visible(s, f, u as int, ia, jb));
                                assert(!visited0[ia + 32 * jb]);
                            }
                        }
                        assert(pairwise_disjoint(quads@)) by {
                            assert forall|k1: int, k2: int| 0 <= k1 < k2 < quads@.len() implies
                                quads_disjoint(quads@[k1], quads@[k2]) by {
                                if k2 < quads0.len() {
                                    assert(quads@[k1] == quads0[k1] && quads@[k2] == quads0[k2]);
                                } else {
                                    assert(quads@[k2] == q && quads@[k1] == quads0[k1]);
                                }
                            }
                        }
                        // Visited cells are exactly the covered cells again.
                        assert forall|i2: int, j2: int| 0 <= i2 < 32 && 0 <= j2 < 32 implies (
                        #[trigger] visited@[i2 + 32 * j2] == covered(
                            quads@,
                            f,
                            u as int,
                            i2,
                            j2,
                        )) by {
                            lemma_covered_push(quads0, q, f, u as int, i2, j2);
                        }
                    }
                }
                a += 1;
            }
            b += 1;
        }
        quads
    }
}

/// The slice order of a quad: its orientation number and slice combined,
/// so that each (orientation, slice) pair is meshed exactly once.
pub open spec fn quad_lex(q: Quad) -> int {
    32 * q.face.index_spec() + q.u as int
}

/// The in-slice `a` coordinate of corner `j` of a quad; corners are numbered
/// (a, b), (a + w, b), (a, b + h), (a + w, b + h).
pub open spec fn corner_a(q: Quad, j: int) -> int {
    if j == 1 || j == 3 {
        q.a + q.w
    } else {
        q.a as int
    }
}

/// The in-slice `b` coordinate of corner `j` of a quad.
pub open spec fn corner_b(q: Quad, j: int) -> int {
    if j >= 2 {
        q.b + q.h
    } else {
        q.b as int
    }
}

/// The coordinate of the quad's plane along its axis: the far side of the
/// voxel for a positive face, the near side for a negative one.
pub open spec fn plane_coord(q: Quad) -> int {
    if q.face.positive() {
        q.u + 1
    } else {
        q.u as int
    }
}

/// The chunk-local position of corner `j` of a quad.
pub open spec fn corner_tuple(q: Quad, j: int) -> (i32, i32, i32) {
    (
        q.face.cell_x(plane_coord(q), corner_a(q, j), corner_b(q, j)) as i32,
        q.face.cell_y(plane_coord(q), corner_a(q, j), corner_b(q, j)) as i32,
        q.face.cell_z(plane_coord(q), corner_a(q, j), corner_b(q, j)) as i32,
    )
}

/// The unit normal of a face, as emitted per vertex.
pub open spec fn normal_tuple(f: Face) -> (i32, i32, i32) {
    (f.normal_x() as i32, f.normal_y() as i32, f.normal_z() as i32)
}

/// The placeholder texture coordinate of corner `j`, spanning the quad.
pub open spec fn uv_tuple(q: Quad, j: int) -> (u32, u32) {
    ((if j == 1 || j == 3 { q.w } else { 0 }) as u32, (if j >= 2 { q.h } else { 0 }) as u32)
}

/// The vertex offsets of the two triangles of a quad.
pub open spec fn index_pattern(t: int) -> int {
    if t == 0 {
        0
    } else if t == 1 {
        1
    } else if t == 2 {
        2
    } else if t == 3 {
        2
    } else if t == 4 {
        1
    } else {
        3
    }
}

/// The buffers of one chunk's mesh: the merged quads, and per quad four
/// vertices (position, normal, placeholder texture coordinate) and six
/// triangle indices. Positions are chunk-local lattice coordinates; the
/// render sink translates them by the chunk's world position.
pub struct MeshBuffers {
    pub quads: Vec<Quad>,
    pub positions: Vec<(i32, i32, i32)>,
    pub normals: Vec<(i32, i32, i32)>,
    pub uvs: Vec<(u32, u32)>,
    pub indices: Vec<u32>,
}

/// The geometry clauses of a finished mesh: buffer lengths in lockstep with
/// the quad list, and every vertex and index determined by its quad.
pub open spec fn buffers_wf(r: MeshBuffers) -> bool {
    &&& r.positions@.len() == 4 * r.quads@.len()
    &&& r.normals@.len() == 4 * r.quads@.len()
    &&& r.uvs@.len() == 4 * r.quads@.len()
    &&& r.indices@.len() == 6 * r.quads@.len()
    &&& forall|v: int|
        0 <= v < r.positions@.len() ==> #[trigger] r.positions@[v] == corner_tuple(
            r.quads@[v / 4],
            v % 4,
        )
    &&& forall|v: int|
        0 <= v < r.normals@.len() ==> #[trigger] r.normals@[v] == normal_tuple(
            r.quads@[v / 4].face,
        )
    &&& forall|v: int|
        0 <= v < r.uvs@.len() ==> #[trigger] r.uvs@[v] == uv_tuple(r.quads@[v / 4], v % 4)
    &&& forall|t: int|
        0 <= t < r.indices@.len() ==> #[trigger] r.indices@[t] as int == 4 * (t / 6)
            + index_pattern(t % 6)
}

/// The chunk-local position of corner `j` of a quad, as executable code.
fn corner_of(q: &Quad, j: usize) -> (c: (i32, i32, i32))
    requires
        quad_wf(*q),
        j < 4,
    ensures
        c == corner_tuple(*q, j as int),
{
    let ca = if j == 1 || j == 3 {
        q.a + q.w
    } else {
        q.a
    };
    let cb = if j >= 2 {
        q.b + q.h
    } else {
        q.b
    };
    let p = match q.face {
        Face::XPos | Face::YPos | Face::ZPos => q.u + 1,
        _ => q.u,
    };
    match q.face {
        Face::XNeg | Face::XPos => (p as i32, ca as i32, cb as i32),
        Face::YNeg | Face::YPos => (ca as i32, p as i32, cb as i32),
        Face::ZNeg | Face::ZPos => (ca as i32, cb as i32, p as i32),
    }
}

/// The unit normal of a face, as executable code.
fn normal_of(f: Face) -> (n: (i32, i32, i32))
    ensures
        n == normal_tuple(f),
{
    match f {
        Face::XNeg => (-1, 0, 0),
        Face::XPos => (1, 0, 0),
        Face::YNeg => (0, -1, 0),
        Face::YPos => (0, 1, 0),
        Face::ZNeg => (0, 0, -1),
        Face::ZPos => (0, 0, 1),
    }
}

/// Builds the vertex and index buffers for a list of quads.
fn build_geometry(quads: Vec<Quad>) -> (r: MeshBuffers)
    requires
        quads@.len() <= 196608,
        forall|k: int| 0 <= k < quads@.len() ==> quad_wf(#[trigger] quads@[k]),
    ensures
        r.quads@ == quads@,
        buffers_wf(r),
{
    let n = quads.len();
    let mut positions: Vec<(i32, i32, i32)> = Vec::with_capacity(4 * n);
    let mut normals: Vec<(i32, i32, i32)> = Vec::with_capacity(4 * n);
    let mut uvs: Vec<(u32, u32)> = Vec::with_capacity(4 * n);
    let mut indices: Vec<u32> = Vec::with_capacity(6 * n);
    let mut k: usize = 0;
    while k < n
        invariant
            k <= n,
            n == quads@.len(),
            n <= 196608,
            forall|k2: int| 0 <= k2 < quads@.len() ==> quad_wf(#[trigger] quads@[k2]),
            positions@.len() == 4 * k as int,
            normals@.len() == 4 * k as int,
            uvs@.len() == 4 * k as int,
            indices@.len() == 6 * k as int,
            forall|v: int|
                0 <= v < positions@.len() ==> #[trigger] positions@[v] == corner_tuple(
                    quads@[v / 4],
                    v % 4,
                ),
            forall|v: int|
                0 <= v < normals@.len() ==> #[trigger] normals@[v] == normal_tuple(
                    quads@[v / 4].face,
                ),
            forall|v: int|
                0 <= v < uvs@.len() ==> #[trigger] uvs@[v] == uv_tuple(quads@[v / 4], v % 4),
            forall|t: int|
                0 <= t < indices@.len() ==> #[trigger] indices@[t] as int == 4 * (t / 6)
                    + index_pattern(t % 6),
        decreases n - k,
    {
        let q = quads[k];
        let nrm = normal_of(q.face);
        let mut j: usize = 0;
        while j < 4
            invariant
                j <= 4,
                k < n,
                n == quads@.len(),
                q == quads@[k as int],
                quad_wf(q),
                nrm == normal_tuple(q.face),
                positions@.len() == 4 * k as int + j as int,
                normals@.len() == 4 * k as int + j as int,
                uvs@.len() == 4 * k as int + j as int,
                forall|v: int|
                    0 <= v < positions@.len() ==> #[trigger] positions@[v] == corner_tuple(
                        quads@[v / 4],
                        v % 4,
                    ),
                forall|v: int|
                    0 <= v < normals@.len() ==> #[trigger] normals@[v] == normal_tuple(
                        quads@[v / 4].face,
                    ),
                forall|v: int|
                    0 <= v < uvs@.len() ==> #[trigger] uvs@[v] == uv_tuple(quads@[v / 4], v % 4),
            decreases 4 - j,
        {
            let c = corner_of(&q, j);
            positions.push(c);
            normals.push(nrm);
            let uv = (
                if j == 1 || j == 3 {
                    q.w as u32
                } else {
                    0
                },
                if j >= 2 {
                    q.h as u32
                } else {
                    0
                },
            );
            uvs.push(uv);
            proof {
                let v = 4 * k as int + j as int;
                assert((4 * k as int + j as int) / 4 == k as int && (4 * k as int + j as int) % 4
                    == j as int) by {
                    vstd::arithmetic::div_mod::lemma_fundamental_div_mod_converse(
                        4 * k as int + j as int,
                        4,
                        k as int,
                        j as int,
                    );
                }
                assert(positions@[v] == corner_tuple(quads@[v / 4], v % 4));
                assert(normals@[v] == normal_tuple(quads@[v / 4].face));
                assert(uvs@[v] == uv_tuple(quads@[v / 4], v % 4));
            }
            j += 1;
        }
        let base = 4 * k;
        let mut t: usize = 0;
        while t < 6
            invariant
                t <= 6,
                k < n,
                n <= 196608,
                base == 4 * k as int,
                indices@.len() == 6 * k as int + t as int,
                forall|t2: int|
                    0 <= t2 < indices@.len() ==> #[trigger] indices@[t2] as int == 4 * (t2 / 6)
                        + index_pattern(t2 % 6),
            decreases 6 - t,
        {
            let off: usize = match t {
                0 => 0,
                1 => 1,
                2 => 2,
                3 => 2,
                4 => 1,
                _ => 3,
            };
            indices.push((base + off) as u32);
            proof {
                let t2 = 6 * k as int + t as int;
                assert(t2 / 6 == k as int && t2 % 6 == t as int) by {
                    vstd::arithmetic::div_mod::lemma_fundamental_div_mod_converse(
                        t2,
                        6,
                        k as int,
                        t as int,
                    );
                }
                assert(indices@[t2] as int == 4 * (t2 / 6) + index_pattern(t2 % 6));
            }
            t += 1;
        }
        k += 1;
    }
    MeshBuffers { quads, positions, normals, uvs, indices }
}

/// Cells covered in a quad list stay covered when the list is extended on
/// the right.
proof fn lemma_covered_prefix(q1: Seq<Quad>, q2: Seq<Quad>, f: Face, u: int, a: int, b: int)
    requires
        covered(q1, f, u, a, b),
    ensures
        covered(q1 + q2, f, u, a, b),
{
    let k = choose|k: int| 0 <= k < q1.len() && quad_covers(#[trigger] q1[k], f, u, a, b);
    assert((q1 + q2)[k] == q1[k]);
}

/// Cells covered in an appended quad list are covered in the whole.
proof fn lemma_covered_suffix(q1: Seq<Quad>, q2: Seq<Quad>, f: Face, u: int, a: int, b: int)
    requires
        covered(q2, f, u, a, b),
    ensures
        covered(q1 + q2, f, u, a, b),
{
    let k = choose|k: int| 0 <= k < q2.len() && quad_covers(#[trigger] q2[k], f, u, a, b);
    assert((q1 + q2)[q1.len() + k] == q2[k]);
}

/// What a finished mesh guarantees against the sample volume it was built
/// from: every quad covers only visible faces of its own material
/// (soundness); every visible face of every orientation is covered
/// (coverage) by exactly one quad (disjointness); and the vertex and index
/// buffers follow the quad list four vertices and six indices at a time.
pub open spec fn mesh_post(s: Seq<Voxel>, r: MeshBuffers) -> bool {
    &&& forall|k: int| 0 <= k < r.quads@.len() ==> quad_sound(s, #[trigger] r.quads@[k])
    &&& forall|f: Face, u: int, a: int, b: int|
        0 <= u < 32 && 0 <= a < 32 && 0 <= b < 32 && #[trigger] face_visible(s, f, u, a, b)
            ==> covered(r.quads@, f, u, a, b)
    &&& pairwise_disjoint(r.quads@)
    &&& buffers_wf(r)
}

impl MeshingChunk {
    /// Extracts the surface of the padded sample volume as a merged-quad
    /// triangle mesh satisfying `mesh_post`. A volume with no visible face,
    /// such as an entirely empty chunk, yields an empty mesh.
    pub fn mesh(&self) -> (r: MeshBuffers)
        requires
            self.wf(),
        ensures
            mesh_post(self.samples@, r),
    {
        let ghost s = self.samples@;
        let mut quads: Vec<Quad> = Vec::new();
        let mut fi: usize = 0;
        while fi < 6
            invariant
                fi <= 6,
                self.wf(),
                s == self.samples@,
                quads@.len() <= 32768 * fi as int,
                forall|k: int| 0 <= k < quads@.len() ==> quad_sound(s, #[trigger] quads@[k]),
                forall|k: int|
                    0 <= k < quads@.len() ==> quad_lex(#[trigger] quads@[k]) < 32 * fi as int,
                pairwise_disjoint(quads@),
                forall|f2: Face, u2: int, a: int, b: int|
                    0 <= u2 < 32 && 0 <= a < 32 && 0 <= b < 32 && 32 * f2.index_spec() + u2 < 32
                        * fi as int && #[trigger] face_visible(s, f2, u2, a, b) ==> covered(
                        quads@,
                        f2,
                        u2,
                        a,
                        b,
                    ),
            decreases 6 - fi,
        {
            let f = face_of_index(fi);
            let mut u: usize = 0;
            while u < 32
                invariant
                    u <= 32,
                    fi < 6,
                    self.wf(),
                    s == self.samples@,
                    f.index_spec() == fi as int,
                    quads@.len() <= 32768 * fi as int + 1024 * u as int,
                    forall|k: int| 0 <= k < quads@.len() ==> quad_sound(s, #[trigger] quads@[k]),
                    forall|k: int|
                        0 <= k < quads@.len() ==> quad_lex(#[trigger] quads@[k]) < 32 * fi as int
                            + u as int,
                    pairwise_disjoint(quads@),
                    forall|f2: Face, u2: int, a: int, b: int|
                        0 <= u2 < 32 && 0 <= a < 32 && 0 <= b < 32 && 32 * f2.index_spec() + u2 < 32
                            * fi as int + u as int && #[trigger] face_visible(s, f2, u2, a, b)
                            ==> covered(quads@, f2, u2, a, b),
                decreases 32 - u,
            {
                let slice_quads = self.mesh_slice(f, u);
                let ghost quads0 = quads@;
                let ghost sq = slice_quads@;
                let mut idx: usize = 0;
                while idx < slice_quads.len()
                    invariant
                        idx <= slice_quads.len(),
                        slice_quads@ == sq,
                        quads@ == quads0 + sq.take(idx as int),
                    decreases slice_quads.len() - idx,
                {
                    let q = slice_quads[idx];
                    quads.push(q);
                    proof {
                        assert(sq.take(idx as int).push(sq[idx as int]) =~= sq.take(
                            idx as int + 1,
                        ));
                        assert(quads@ =~= quads0 + sq.take(idx as int + 1));
                    }
                    idx += 1;
                }
                proof {
                    assert(sq.take(sq.len() as int) =~= sq);
                    assert(quads@ == quads0 + sq);
                    let lexnow = 32 * fi as int + u as int;
                    // Soundness and slice order of the combined list.
                    assert forall|k: int| 0 <= k < quads@.len() implies quad_sound(
                        s,
                        #[trigger] quads@[k],
                    ) && quad_lex(quads@[k]) < lexnow + 1 by {
                        if k < quads0.len() {
                            assert(quads@[k] == quads0[k]);
                        } else {
                            assert(quads@[k] == sq[k - quads0.len()]);
                        }
                    }
                    // Disjointness: earlier quads lie in earlier slices.
                    assert forall|k1: int, k2: int| 0 <= k1 < k2 < quads@.len() implies
                        quads_disjoint(#[trigger] quads@[k1], #[trigger] quads@[k2]) by {
                        if k2 < quads0.len() {
                            assert(quads@[k1] == quads0[k1] && quads@[k2] == quads0[k2]);
                        } else if k1 >= quads0.len() {
                            assert(quads@[k1] == sq[k1 - quads0.len()] && quads@[k2] == sq[k2
                                - quads0.len()]);
                        } else {
                            assert(quads@[k1] == quads0[k1] && quads@[k2] == sq[k2
                                - quads0.len()]);
                            assert(quad_lex(quads@[k1]) < lexnow);
                            assert(quads@[k2].face == f && quads@[k2].u == u);
                            assert(quad_lex(quads@[k2]) == lexnow);
                            if quads@[k1].face == quads@[k2].face && quads@[k1].u == quads@[k2].u {
                                assert(quad_lex(quads@[k1]) == quad_lex(quads@[k2]));
                            }
                        }
                    }
                    // Coverage: earlier slices via the prefix, this slice
                    // via the appended quads.
                    assert forall|f2: Face, u2: int, a: int, b: int|
                        0 <= u2 < 32 && 0 <= a < 32 && 0 <= b < 32 && 32 * f2.index_spec() + u2
                            < lexnow + 1 && #[trigger] face_visible(s, f2, u2, a, b) implies
                        covered(quads@, f2, u2, a, b) by {
                        if 32 * f2.index_spec() + u2 < lexnow {
                            assert(covered(quads0, f2, u2, a, b));
                            lemma_covered_prefix(quads0, sq, f2, u2, a, b);
                        } else {
                            assert(f2.index_spec() == fi as int && u2 == u as int) by {
                                lemma_face_lex_unique(f2, u2, fi as int, u as int);
                            }
                            assert(f2 == f) by {
                                lemma_face_index_injective(f2, f);
                            }
                            assert(covered(sq, f, u as int, a, b));
                            lemma_covered_suffix(quads0, sq, f2, u2, a, b);
                        }
                    }
                }
                u += 1;
            }
            fi += 1;
        }
        proof {
            assert forall|f2: Face, u2: int, a: int, b: int|
                0 <= u2 < 32 && 0 <= a < 32 && 0 <= b < 32 && #[trigger] face_visible(
                    s,
                    f2,
                    u2,
                    a,
                    b,
                ) implies covered(quads@, f2, u2, a, b) by {
                assert(f2.index_spec() < 6);
                assert(32 * f2.index_spec() + u2 < 192);
            }
            assert forall|k: int| 0 <= k < quads@.len() implies quad_wf(#[trigger] quads@[k]) by {
                assert(quad_sound(s, quads@[k]));
            }
        }
        build_geometry(quads)
    }
}

/// Equal slice orders mean equal orientation numbers and slices.
proof fn lemma_face_lex_unique(f2: Face, u2: int, fi: int, u: int)
    requires
        0 <= u2 < 32,
        0 <= u < 32,
        0 <= fi < 6,
        fi == 5 ==> f2.index_spec() <= 5,
        32 * f2.index_spec() + u2 == 32 * fi + u,
        0 <= f2.index_spec() < 6,
    ensures
        f2.index_spec() == fi,
        u2 == u,
{
}

/// Faces with the same orientation number are the same face.
proof fn lemma_face_index_injective(f1: Face, f2: Face)
    requires
        f1.index_spec() == f2.index_spec(),
    ensures
        f1 == f2,
{
}

/// A sample volume with no opaque voxel at all meshes to no quads: every
/// quad covers at least one cell, and a covered cell's own voxel is opaque.
pub proof fn lemma_empty_volume_meshes_empty(s: Seq<Voxel>, quads: Seq<Quad>)
    requires
        forall|k: int| 0 <= k < quads.len() ==> quad_sound(s, #[trigger] quads[k]),
        forall|x: int, y: int, z: int|
            0 <= x < 34 && 0 <= y < 34 && 0 <= z < 34 ==> !(#[trigger] seq_sample(
                s,
                x,
                y,
                z,
            )).is_opaque_spec(),
    ensures
        quads.len() == 0,
{
    if quads.len() > 0 {
        let q = quads[0];
        assert(quad_sound(s, q));
        let u = q.u as int;
        let a = q.a as int;
        let b = q.b as int;
        assert(face_visible(s, q.face, u, a, b));
        let x = q.face.cell_x(u, a, b);
        let y = q.face.cell_y(u, a, b);
        let z = q.face.cell_z(u, a, b);
        assert(0 <= x < 32 && 0 <= y < 32 && 0 <= z < 32);
        assert(seq_sample(s, x + 1, y + 1, z + 1).is_opaque_spec());
        assert(!seq_sample(s, x + 1, y + 1, z + 1).is_opaque_spec());
    }
}

/// Whether the occlusion test can read a padded sample position: at most one
/// of its axes lies on the border. Border edges and corners, where two or
/// three axes touch the border, are never read across (and border sampling
/// leaves them empty).
pub open spec fn face_readable(x: int, y: int, z: int) -> bool {
    ||| (1 <= y < 33 && 1 <= z < 33)
    ||| (1 <= x < 33 && 1 <= z < 33)
    ||| (1 <= x < 33 && 1 <= y < 33)
}

/// A sample volume that is opaque at every position the occlusion test can
/// read, the chunk and all six of its face neighbors alike, meshes to no
/// quads: every face is occluded.
pub proof fn lemma_occluded_volume_meshes_empty(s: Seq<Voxel>, quads: Seq<Quad>)
    requires
        forall|k: int| 0 <= k < quads.len() ==> quad_sound(s, #[trigger] quads[k]),
        forall|x: int, y: int, z: int|
            0 <= x < 34 && 0 <= y < 34 && 0 <= z < 34 && face_readable(x, y, z) ==> (
            #[trigger] seq_sample(s, x, y, z)).is_opaque_spec(),
    ensures
        quads.len() == 0,
{
    if quads.len() > 0 {
        let q = quads[0];
        assert(quad_sound(s, q));
        let u = q.u as int;
        let a = q.a as int;
        let b = q.b as int;
        assert(face_visible(s, q.face, u, a, b));
        let x = q.face.cell_x(u, a, b);
        let y = q.face.cell_y(u, a, b);
        let z = q.face.cell_z(u, a, b);
        // The voxel across the face steps along one axis only, so it stays
        // readable: the other two axes remain interior.
        let nx = x + 1 + q.face.normal_x();
        let ny = y + 1 + q.face.normal_y();
        let nz = z + 1 + q.face.normal_z();
        assert(0 <= nx < 34 && 0 <= ny < 34 && 0 <= nz < 34);
        assert(face_readable(nx, ny, nz));
        assert(seq_sample(s, nx, ny, nz).is_opaque_spec());
        assert(!seq_sample(s, nx, ny, nz).is_opaque_spec());
    }
}

/// An empty quad list leaves no face visible: the converse direction of
/// coverage, so an empty mesh means the volume truly had no surface.
pub proof fn lemma_empty_mesh_no_visible_face(s: Seq<Voxel>, quads: Seq<Quad>)
    requires
        quads.len() == 0,
        forall|f: Face, u: int, a: int, b: int|
            0 <= u < 32 && 0 <= a < 32 && 0 <= b < 32 && #[trigger] face_visible(s, f, u, a, b)
                ==> covered(quads, f, u, a, b),
    ensures
        forall|f: Face, u: int, a: int, b: int|
            0 <= u < 32 && 0 <= a < 32 && 0 <= b < 32 ==> !(#[trigger] face_visible(s, f, u, a, b)),
{
    assert forall|f: Face, u: int, a: int, b: int|
        0 <= u < 32 && 0 <= a < 32 && 0 <= b < 32 implies !(#[trigger] face_visible(
        s,
        f,
        u,
        a,
        b,
    )) by {
        if face_visible(s, f, u, a, b) {
            assert(covered(quads, f, u, a, b));
            let k = choose|k: int| 0 <= k < quads.len() && quad_covers(#[trigger] quads[k], f, u, a, b);
            assert(false);
        }
    }
}

/// A chunk list for meshing: the chunk itself, then the given face
/// neighbors in the order of `Directions::all` after `Zero`.
pub open spec fn with_center(c: Chunk, neighbors: Seq<Option<&Chunk>>) -> Seq<Option<Chunk>> {
    seq![Some(c)] + crate::meshing_chunk::deref_chunks(neighbors)
}

/// The chunk alone: all six neighbors absent, so an all-empty border.
pub open spec fn lone_border(c: Chunk) -> Seq<Option<Chunk>> {
    seq![Some(c), None, None, None, None, None, None]
}

impl Chunk {
    /// Meshes the chunk against the given face neighbors (in the order +x,
    /// -x, +y, -y, +z, -z): builds the bordered sample volume and extracts
    /// the merged-quad surface from it.
    pub fn mesh_with_borders(&self, neighbors: [Option<&Chunk>; 6]) -> (r: MeshBuffers)
        requires
            self.wf(),
            forall|k: int| 0 <= k < 6 ==> crate::meshing_chunk::opt_wf(#[trigger] neighbors@[k]),
        ensures
            mesh_post(crate::meshing_chunk::mesh_input(with_center(*self, neighbors@)), r),
    {
        let chunks = [
            Some(self),
            neighbors[0],
            neighbors[1],
            neighbors[2],
            neighbors[3],
            neighbors[4],
            neighbors[5],
        ];
        proof {
            assert(crate::meshing_chunk::deref_chunks(chunks@) =~= with_center(
                *self,
                neighbors@,
            ));
        }
        let mc = MeshingChunk::new(chunks);
        proof {
            crate::meshing_chunk::lemma_samples_are_mesh_input(
                mc,
                with_center(*self, neighbors@),
            );
        }
        mc.mesh()
    }

    /// Meshes the chunk with no neighbors: every border samples as empty, so
    /// all six outer faces of the chunk's surface are exposed.
    pub fn mesh(&self) -> (r: MeshBuffers)
        requires
            self.wf(),
        ensures
            mesh_post(crate::meshing_chunk::mesh_input(lone_border(*self)), r),
    {
        let none_neighbors: [Option<&Chunk>; 6] = [None, None, None, None, None, None];
        let r = self.mesh_with_borders(none_neighbors);
        proof {
            assert(with_center(*self, none_neighbors@) =~= lone_border(*self));
        }
        r
    }
}

/// The cell of the slice-local coordinates, as executable code.
fn face_cell(f: Face, u: usize, a: usize, b: usize) -> (c: (usize, usize, usize))
    requires
        u < 32,
        a < 32,
        b < 32,
    ensures
        c.0 == f.cell_x(u as int, a as int, b as int),
        c.1 == f.cell_y(u as int, a as int, b as int),
        c.2 == f.cell_z(u as int, a as int, b as int),
        c.0 < 32 && c.1 < 32 && c.2 < 32,
{
    match f {
        Face::XNeg | Face::XPos => (u, a, b),
        Face::YNeg | Face::YPos => (a, u, b),
        Face::ZNeg | Face::ZPos => (a, b, u),
    }
}

} // verus!

//! Run-compressed storage for one 32-voxel line of a chunk.
//!
//! A row is kept in the most compact of three representations that can hold
//! its contents: one repeated value (`SingleRow`), two uniform halves of 16
//! voxels each (`HalfRow`), or 32 individually addressed voxels (`FullRow`).
//! Reads are O(1) in every representation; a write that would break the
//! current representation's uniformity promotes the row, and a write that
//! restores uniformity demotes it, so the compactness invariant always holds.

use vstd::prelude::*;

use crate::voxel::Voxel;

verus! {

/// The number of voxels in one row, and the side length of a chunk.
pub const CHUNK_SIZE: usize = 32;

/// The number of voxels in one half of a row.
pub const HALF_SIZE: usize = 16;

/// True when `s[lo..hi]` holds one repeated value.
pub open spec fn uniform_from(s: Seq<Voxel>, lo: int, hi: int) -> bool {
    forall|i: int| lo <= i < hi ==> s[i] == s[lo]
}

/// True when both halves of a 32-voxel line are uniform, i.e. the line fits
/// in a `HalfRow` (or a `SingleRow`, when the halves hold the same value).
pub open spec fn two_uniform_halves(s: Seq<Voxel>) -> bool {
    uniform_from(s, 0, HALF_SIZE as int) && uniform_from(s, HALF_SIZE as int, CHUNK_SIZE as int)
}

/// One voxel value repeated across all 32 positions; the state of a freshly
/// created row.
pub struct SingleRow {
    pub voxel: Voxel,
}

/// Two uniform halves of 16 voxels each, each half holding one voxel value.
pub struct HalfRow {
    pub first: Voxel,
    pub second: Voxel,
}

/// 32 individually addressable voxels; used once heterogeneity is introduced.
pub struct FullRow {
    pub voxels: Vec<Voxel>,
}

/// A compressible line of 32 voxels: a closed union of the three
/// representations, dispatched by `match` inside each operation.
pub enum Row {
    Single(SingleRow),
    Half(HalfRow),
    Full(FullRow),
}

impl View for SingleRow {
    type V = Seq<Voxel>;

    open spec fn view(&self) -> Seq<Voxel> {
        Seq::new(CHUNK_SIZE as nat, |i: int| self.voxel)
    }
}

impl View for HalfRow {
    type V = Seq<Voxel>;

    open spec fn view(&self) -> Seq<Voxel> {
        Seq::new(
            CHUNK_SIZE as nat,
            |i: int| if i < HALF_SIZE as int { self.first } else { self.second },
        )
    }
}

impl View for FullRow {
    type V = Seq<Voxel>;

    open spec fn view(&self) -> Seq<Voxel> {
        self.voxels@
    }
}

impl View for Row {
    type V = Seq<Voxel>;

    open spec fn view(&self) -> Seq<Voxel> {
        match self {
            Row::Single(r) => r@,
            Row::Half(r) => r@,
            Row::Full(r) => r@,
        }
    }
}

impl Row {
    /// The representation invariant: a row is always the most compact of the
    /// three representations that can hold its contents.
    pub open spec fn wf(self) -> bool {
        match self {
            Row::Single(_) => true,
            Row::Half(r) => r.first != r.second,
            Row::Full(r) => r.voxels@.len() == CHUNK_SIZE as int && !two_uniform_halves(r.voxels@),
        }
    }

    /// A fresh row: the given value repeated across all 32 positions.
    pub fn new(voxel: Voxel) -> (r: Row)
        ensures
            r.wf(),
            r@ == Seq::new(CHUNK_SIZE as nat, |i: int| voxel),
            r is Single,
    {
        Row::Single(SingleRow { voxel })
    }

    /// Reads the voxel at `index`; O(1) regardless of representation.
    pub fn get(&self, index: usize) -> (v: Voxel)
        requires
            index < CHUNK_SIZE,
            self.wf(),
        ensures
            v == self@[index as int],
    {
        match self {
            Row::Single(r) => r.voxel,
            Row::Half(r) => if index < HALF_SIZE {
                r.first
            } else {
                r.second
            },
            Row::Full(r) => r.voxels[index],
        }
    }

    /// True when the row is stored compressed (not fully materialized).
    /// Under the representation invariant this is exactly the condition that
    /// both halves of the contents are uniform.
    pub fn is_compressed(&self) -> (r: bool)
        requires
            self.wf(),
        ensures
            r == !(self is Full),
            r <==> two_uniform_halves(self@),
    {
        match self {
            Row::Single(_) => true,
            Row::Half(_) => true,
            Row::Full(_) => false,
        }
    }

    /// The uniform value of a compressed row: the repeated value of a
    /// `SingleRow`, the first-half value of a `HalfRow`. Only meaningful when
    /// `is_compressed` holds; a `FullRow` reports the empty voxel.
    pub fn compress_value(&self) -> (v: Voxel)
        requires
            self.wf(),
        ensures
            !(self is Full) ==> v == self@[0],
    {
        match self {
            Row::Single(r) => r.voxel,
            Row::Half(r) => r.first,
            Row::Full(_) => Voxel::empty(),
        }
    }

    /// Which positions the compressed value applies to, two positions per
    /// mask bit: bit `i` covers positions `2 * i` and `2 * i + 1`. A
    /// `SingleRow`'s value covers the whole row, a `HalfRow`'s first-half
    /// value covers the low half, and a `FullRow` reports no coverage.
    pub fn compress_mask(&self) -> (m: u16)
        requires
            self.wf(),
        ensures
            self is Single ==> m == 0xffffu16,
            self is Half ==> m == 0x00ffu16,
            self is Full ==> m == 0u16,
    {
        match self {
            Row::Single(_) => 0xffff,
            Row::Half(_) => 0x00ff,
            Row::Full(_) => 0,
        }
    }

    /// Copies the row out into one voxel per position.
    pub fn to_values(&self) -> (vals: Vec<Voxel>)
        requires
            self.wf(),
        ensures
            vals@ == self@,
    {
        let mut vals: Vec<Voxel> = Vec::with_capacity(CHUNK_SIZE);
        let mut i: usize = 0;
        while i < CHUNK_SIZE
            invariant
                i <= CHUNK_SIZE,
                self.wf(),
                vals@.len() == i as int,
                forall|j: int| 0 <= j < i as int ==> vals@[j] == self@[j],
            decreases CHUNK_SIZE - i,
        {
            vals.push(self.get(i));
            i += 1;
        }
        proof {
            assert(vals@ =~= self@);
        }
        vals
    }

    /// Packs 32 voxels into the most compact representation that holds them.
    pub fn from_values(vals: Vec<Voxel>) -> (r: Row)
        requires
            vals@.len() == CHUNK_SIZE as int,
        ensures
            r.wf(),
            r@ == vals@,
    {
        let first_uniform = is_uniform_range(&vals, 0, HALF_SIZE);
        let second_uniform = is_uniform_range(&vals, HALF_SIZE, CHUNK_SIZE);
        if first_uniform && second_uniform {
            let first = vals[0];
            let second = vals[HALF_SIZE];
            if first == second {
                let r = Row::Single(SingleRow { voxel: first });
                proof {
                    assert(r@ =~= vals@);
                }
                r
            } else {
                let r = Row::Half(HalfRow { first, second });
                proof {
                    assert(r@ =~= vals@);
                }
                r
            }
        } else {
            Row::Full(FullRow { voxels: vals })
        }
    }

    /// Writes `voxel` at `index`. A write that breaks the current
    /// representation's uniformity promotes the row; one that restores
    /// uniformity demotes it, so the row stays in its most compact form.
    pub fn put(&mut self, index: usize, voxel: Voxel)
        requires
            index < CHUNK_SIZE,
            old(self).wf(),
        ensures
            final(self).wf(),
            final(self)@ == old(self)@.update(index as int, voxel),
    {
        let unchanged = match &*self {
            Row::Single(r) => r.voxel == voxel,
            _ => false,
        };
        if unchanged {
            proof {
                assert(self@ =~= self@.update(index as int, voxel));
            }
        } else {
            let mut vals = self.to_values();
            vals.set(index, voxel);
            *self = Row::from_values(vals);
        }
    }
}

impl Default for Row {
    /// A fresh row is a compressed line of empty voxels.
    fn default() -> (r: Row)
        ensures
            r.wf(),
            r is Single,
            forall|i: int| 0 <= i < CHUNK_SIZE as int ==> r@[i].is_empty_spec(),
    {
        Row::new(Voxel::empty())
    }
}

/// True iff `vals[lo..hi]` holds one repeated value.
fn is_uniform_range(vals: &Vec<Voxel>, lo: usize, hi: usize) -> (r: bool)
    requires
        lo < hi,
        hi <= vals@.len(),
    ensures
        r == uniform_from(vals@, lo as int, hi as int),
{
    let mut i: usize = lo + 1;
    while i < hi
        invariant
            lo < i <= hi,
            hi <= vals@.len(),
            forall|j: int| lo as int <= j < i as int ==> vals@[j] == vals@[lo as int],
        decreases hi - i,
    {
        if vals[i].0 != vals[lo].0 {
            return false;
        }
        i += 1;
    }
    true
}

/// After a write of `voxel` at `index`, a read returns the most recently
/// written value there and the previously held value everywhere else,
/// whatever representations the two rows are in: compression is transparent.
pub proof fn lemma_put_then_get(before: Row, after: Row, index: int, voxel: Voxel)
    requires
        0 <= index < CHUNK_SIZE as int,
        before@.len() == CHUNK_SIZE as int,
        after@ == before@.update(index, voxel),
    ensures
        after@[index] == voxel,
        forall|j: int| 0 <= j < CHUNK_SIZE as int && j != index ==> after@[j] == before@[j],
{
}

/// Writing a second, distinct value into a uniform row promotes it to the
/// fully materialized representation (it reports uncompressed), and the
/// values at all other positions are unchanged.
pub proof fn lemma_distinct_write_promotes(before: Row, after: Row, index: int, voxel: Voxel)
    requires
        0 <= index < CHUNK_SIZE as int,
        before.wf(),
        after.wf(),
        before@.len() == CHUNK_SIZE as int,
        uniform_from(before@, 0, CHUNK_SIZE as int),
        voxel != before@[0],
        after@ == before@.update(index, voxel),
    ensures
        after is Full,
        !two_uniform_halves(after@),
        forall|j: int| 0 <= j < CHUNK_SIZE as int && j != index ==> after@[j] == before@[j],
{
    // The half that received the write holds both the old and the new value,
    // so it is not uniform; the invariant then forces the full representation.
    if index < HALF_SIZE as int {
        let other = if index == 0 { 1int } else { 0int };
        assert(after@[other] == before@[other]);
        assert(after@[other] == before@[0]);
        assert(!uniform_from(after@, 0, HALF_SIZE as int)) by {
            if uniform_from(after@, 0, HALF_SIZE as int) {
                assert(after@[index] == after@[0]);
                assert(after@[other] == after@[0]);
            }
        }
    } else {
        let other = if index == HALF_SIZE as int { HALF_SIZE as int + 1 } else { HALF_SIZE as int };
        assert(after@[other] == before@[other]);
        assert(after@[other] == before@[0]);
        assert(!uniform_from(after@, HALF_SIZE as int, CHUNK_SIZE as int)) by {
            if uniform_from(after@, HALF_SIZE as int, CHUNK_SIZE as int) {
                assert(after@[index] == after@[HALF_SIZE as int]);
                assert(after@[other] == after@[HALF_SIZE as int]);
            }
        }
    }
    match after {
        Row::Single(r) => {
            assert(uniform_from(after@, 0, CHUNK_SIZE as int));
            assert(false);
        },
        Row::Half(_) => {
            assert(two_uniform_halves(after@));
            assert(false);
        },
        Row::Full(_) => {},
    }
}

} // verus!

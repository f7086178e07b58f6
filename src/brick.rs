use vstd::prelude::*;

use crate::error::VoxelError;
use crate::voxel::{empty_voxel, Voxel};

verus! {

/// Edge length of a brick, in voxels.
pub const BRICK_EDGE: u64 = 64;

/// Number of voxels in a brick.
pub const BRICK_VOLUME: usize = 262144;

/// The abstract content of a brick.
pub struct BrickView {
    /// Placement in the voxel grid, in brick units.
    pub pos: (u16, u16, u16),
    /// The voxels, indexed by `local_index`.
    pub cells: Seq<Voxel>,
    /// Whether the brick changed since the buffer last saw it.
    pub dirty: bool,
}

/// Whether a local coordinate lies inside a brick.
pub open spec fn in_brick(x: u64, y: u64, z: u64) -> bool {
    x < BRICK_EDGE && y < BRICK_EDGE && z < BRICK_EDGE
}

/// The position of local coordinate `(x, y, z)` in a brick's voxels.
pub open spec fn local_index(x: u64, y: u64, z: u64) -> int {
    x + y * 64 + z * 4096
}

/// A fresh brick at `pos`: every voxel empty, not yet seen by the buffer.
pub open spec fn empty_brick(pos: (u16, u16, u16)) -> BrickView {
    BrickView { pos, cells: Seq::new(BRICK_VOLUME as nat, |i: int| empty_voxel()), dirty: true }
}

/// `b` with the voxel at local coordinate `(x, y, z)` replaced and marked dirty.
pub open spec fn brick_with(b: BrickView, x: u64, y: u64, z: u64, v: Voxel) -> BrickView {
    BrickView { pos: b.pos, cells: b.cells.update(local_index(x, y, z), v), dirty: true }
}

/// Writing a voxel into a brick and reading the same cell gives the voxel
/// written; every other cell keeps its value.
pub proof fn lemma_write_then_read(b: BrickView, x: u64, y: u64, z: u64, v: Voxel)
    requires
        b.cells.len() == BRICK_VOLUME,
        in_brick(x, y, z),
    ensures
        brick_with(b, x, y, z, v).cells[local_index(x, y, z)] == v,
        brick_with(b, x, y, z, v).cells.len() == BRICK_VOLUME,
        forall|i: int|
            0 <= i < BRICK_VOLUME && i != local_index(x, y, z) ==> brick_with(b, x, y, z, v).cells[i]
                == b.cells[i],
{
}

/// A cubic block of `BRICK_EDGE`³ voxels at a position of the brick grid.
pub struct Brick {
    pub pos: (u16, u16, u16),
    pub data: Vec<Voxel>,
    pub dirty: bool,
}

impl View for Brick {
    type V = BrickView;

    open spec fn view(&self) -> BrickView {
        BrickView { pos: self.pos, cells: self.data@, dirty: self.dirty }
    }
}

impl Brick {
    /// A brick holds exactly one voxel per cell.
    pub open spec fn wf(&self) -> bool {
        self.data@.len() == BRICK_VOLUME
    }

    /// A brick at grid position `(x, y, z)` filled with the empty voxel.
    pub fn empty(x: u16, y: u16, z: u16) -> (b: Brick)
        ensures
            b.wf(),
            b@ == empty_brick((x, y, z)),
    {
        let fill = Voxel::empty();
        let mut data: Vec<Voxel> = Vec::with_capacity(BRICK_VOLUME);
        let mut i: usize = 0;
        while i < BRICK_VOLUME
            invariant
                i <= BRICK_VOLUME,
                data@.len() == i,
                fill == empty_voxel(),
                forall|j: int| 0 <= j < i ==> data@[j] == empty_voxel(),
            decreases BRICK_VOLUME - i,
        {
            data.push(fill);
            i = i + 1;
        }
        let b = Brick { pos: (x, y, z), data, dirty: true };
        assert(b@.cells =~= empty_brick((x, y, z)).cells);
        b
    }

    /// The voxel at local coordinate `(x, y, z)`.
    pub fn get(&self, x: u64, y: u64, z: u64) -> (r: Result<Voxel, VoxelError>)
        requires
            self.wf(),
        ensures
            in_brick(x, y, z) ==> r == Ok::<Voxel, VoxelError>(self@.cells[local_index(x, y, z)]),
            !in_brick(x, y, z) ==> r == Err::<Voxel, VoxelError>(VoxelError::OutOfBounds),
    {
        if x < BRICK_EDGE && y < BRICK_EDGE && z < BRICK_EDGE {
            let i = (x + y * 64 + z * 4096) as usize;
            Ok(self.data[i])
        } else {
            Err(VoxelError::OutOfBounds)
        }
    }

    /// Replaces the voxel at local coordinate `(x, y, z)` and marks the brick
    /// dirty. Out of bounds, the brick is left as it was.
    pub fn set(&mut self, x: u64, y: u64, z: u64, v: Voxel) -> (r: Result<(), VoxelError>)
        requires
            old(self).wf(),
        ensures
            final(self).wf(),
            in_brick(x, y, z) ==> r == Ok::<(), VoxelError>(()) && final(self)@ == brick_with(
                old(self)@,
                x,
                y,
                z,
                v,
            ),
            !in_brick(x, y, z) ==> r == Err::<(), VoxelError>(VoxelError::OutOfBounds)
                && *final(self) == *old(self),
    {
        if x < BRICK_EDGE && y < BRICK_EDGE && z < BRICK_EDGE {
            let i = (x + y * 64 + z * 4096) as usize;
            self.data.set(i, v);
            self.dirty = true;
            Ok(())
        } else {
            Err(VoxelError::OutOfBounds)
        }
    }

    /// Whether the brick changed since the buffer last saw it.
    pub fn is_dirty(&self) -> (r: bool)
        ensures
            r == self.dirty,
    {
        self.dirty
    }
}

} // verus!

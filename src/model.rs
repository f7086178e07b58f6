use vstd::prelude::*;

use crate::brick::{brick_with, in_brick, local_index, Brick, BrickView, BRICK_EDGE, BRICK_VOLUME};
use crate::error::VoxelError;
use crate::voxel::Voxel;

verus! {

/// Whether brick `b` is the one that holds global voxel `(x, y, z)`.
pub open spec fn holds(b: BrickView, x: u64, y: u64, z: u64) -> bool {
    b.pos.0 == x / 64 && b.pos.1 == y / 64 && b.pos.2 == z / 64
}

/// Whether some brick of `bs` holds global voxel `(x, y, z)`.
pub open spec fn covers(bs: Seq<BrickView>, x: u64, y: u64, z: u64) -> bool {
    exists|i: int| 0 <= i < bs.len() && holds(#[trigger] bs[i], x, y, z)
}

/// `bs` after writing `v` at global voxel `(x, y, z)`: each brick that holds
/// the voxel gets it at the local coordinate, the others are unchanged.
pub open spec fn model_with(bs: Seq<BrickView>, x: u64, y: u64, z: u64, v: Voxel) -> Seq<
    BrickView,
> {
    Seq::new(
        bs.len(),
        |i: int|
            if holds(bs[i], x, y, z) {
                brick_with(bs[i], x % 64, y % 64, z % 64, v)
            } else {
                bs[i]
            },
    )
}

/// The voxel at global voxel `(x, y, z)` in the first brick from index `i`
/// on that holds it, if any.
pub open spec fn voxel_from(bs: Seq<BrickView>, x: u64, y: u64, z: u64, i: int) -> Option<Voxel>
    decreases bs.len() - i,
{
    if i < 0 || i >= bs.len() {
        None
    } else if holds(bs[i], x, y, z) {
        Some(bs[i].cells[local_index(x % 64, y % 64, z % 64)])
    } else {
        voxel_from(bs, x, y, z, i + 1)
    }
}

/// The voxel at global voxel `(x, y, z)` of bricks `bs`, read from the first
/// brick that holds it.
pub open spec fn voxel_at(bs: Seq<BrickView>, x: u64, y: u64, z: u64) -> Option<Voxel> {
    voxel_from(bs, x, y, z, 0)
}

proof fn lemma_voxel_from_written(bs: Seq<BrickView>, x: u64, y: u64, z: u64, v: Voxel, i: int)
    requires
        0 <= i,
        exists|j: int| i <= j < bs.len() && holds(#[trigger] bs[j], x, y, z),
        forall|j: int| 0 <= j < bs.len() ==> (#[trigger] bs[j]).cells.len() == BRICK_VOLUME,
    ensures
        voxel_from(model_with(bs, x, y, z, v), x, y, z, i) == Some(v),
    decreases bs.len() - i,
{
    let w = model_with(bs, x, y, z, v);
    if !holds(bs[i], x, y, z) {
        let j = choose|j: int| i <= j < bs.len() && holds(#[trigger] bs[j], x, y, z);
        assert(j != i);
        lemma_voxel_from_written(bs, x, y, z, v, i + 1);
    } else {
        assert(in_brick(x % 64, y % 64, z % 64));
        assert(w[i].cells[local_index(x % 64, y % 64, z % 64)] == v);
    }
}

/// Writing a voxel into bricks that hold its coordinate and reading the same
/// coordinate gives the voxel written.
pub proof fn lemma_model_write_then_read(bs: Seq<BrickView>, x: u64, y: u64, z: u64, v: Voxel)
    requires
        covers(bs, x, y, z),
        forall|j: int| 0 <= j < bs.len() ==> (#[trigger] bs[j]).cells.len() == BRICK_VOLUME,
    ensures
        voxel_at(model_with(bs, x, y, z, v), x, y, z) == Some(v),
{
    lemma_voxel_from_written(bs, x, y, z, v, 0);
}

/// The abstract content of a sequence of bricks.
pub open spec fn bricks_view(bs: Seq<Brick>) -> Seq<BrickView> {
    bs.map_values(|b: Brick| b@)
}

/// Every brick of `bs` is well formed.
pub open spec fn all_wf(bs: Seq<Brick>) -> bool {
    forall|i: int| 0 <= i < bs.len() ==> (#[trigger] bs[i]).wf()
}

/// Bricks that make a model: each holds one voxel per cell, no two share a
/// grid position, and their number is a machine size.
pub open spec fn bricks_ok(bs: Seq<BrickView>) -> bool {
    &&& bs.len() <= usize::MAX
    &&& forall|i: int| 0 <= i < bs.len() ==> (#[trigger] bs[i]).cells.len() == BRICK_VOLUME
    &&& forall|i: int, j: int| 0 <= i < j < bs.len() ==> (#[trigger] bs[i]).pos != (#[trigger] bs[j]).pos
}

/// `bs` with every brick marked clean.
pub open spec fn clean_bricks(bs: Seq<BrickView>) -> Seq<BrickView> {
    bs.map_values(|b: BrickView| BrickView { pos: b.pos, cells: b.cells, dirty: false })
}

/// Writing a voxel keeps bricks well formed: positions and sizes stay.
pub proof fn lemma_model_with_ok(bs: Seq<BrickView>, x: u64, y: u64, z: u64, v: Voxel)
    requires
        bricks_ok(bs),
    ensures
        bricks_ok(model_with(bs, x, y, z, v)),
{
    let w = model_with(bs, x, y, z, v);
    assert forall|i: int, j: int| 0 <= i < j < w.len() implies (#[trigger] w[i]).pos != (
    #[trigger] w[j]).pos by {
        assert(w[i].pos == bs[i].pos && w[j].pos == bs[j].pos);
    }
}

/// A model stored as a list of bricks at distinct grid positions.
pub struct VoxModel {
    bricks: Vec<Brick>,
}

impl View for VoxModel {
    type V = Seq<BrickView>;

    closed spec fn view(&self) -> Seq<BrickView> {
        bricks_view(self.bricks@)
    }
}

impl VoxModel {
    pub open spec fn wf(&self) -> bool {
        bricks_ok(self@)
    }

    /// A model made of the given bricks, which must sit at distinct positions.
    pub fn from_bricks(bricks: Vec<Brick>) -> (m: VoxModel)
        requires
            bricks_ok(bricks_view(bricks@)),
        ensures
            m.wf(),
            m@ == bricks_view(bricks@),
    {
        VoxModel { bricks }
    }

    /// The bricks of the model.
    pub fn get_bricks(&self) -> (r: &Vec<Brick>)
        ensures
            bricks_view(r@) == self@,
    {
        &self.bricks
    }

    /// Marks every brick clean.
    pub fn clear_dirty(&mut self)
        requires
            old(self).wf(),
        ensures
            final(self).wf(),
            final(self)@ == clean_bricks(old(self)@),
    {
        let ghost before = self@;
        let n = self.bricks.len();
        let mut i: usize = 0;
        while i < n
            invariant
                n == self.bricks@.len(),
                n == before.len(),
                before == old(self)@,
                i <= n,
                forall|j: int| 0 <= j < i ==> (#[trigger] self.bricks@[j])@ == clean_bricks(before)[j],
                forall|j: int| i <= j < n ==> (#[trigger] self.bricks@[j])@ == before[j],
            decreases n - i,
        {
            self.bricks[i].dirty = false;
            i = i + 1;
        }
        assert(self@ =~= clean_bricks(before));
        proof {
            let c = clean_bricks(before);
            assert forall|i: int, j: int| 0 <= i < j < c.len() implies (#[trigger] c[i]).pos != (
            #[trigger] c[j]).pos by {
                assert(c[i].pos == before[i].pos && c[j].pos == before[j].pos);
            }
        }
    }

    /// Whether some brick of the model holds global voxel `(x, y, z)`.
    pub fn covers_voxel(&self, x: u64, y: u64, z: u64) -> (r: bool)
        ensures
            r == covers(self@, x, y, z),
    {
        let bx = x / BRICK_EDGE;
        let by = y / BRICK_EDGE;
        let bz = z / BRICK_EDGE;
        let mut i: usize = 0;
        while i < self.bricks.len()
            invariant
                i <= self.bricks@.len(),
                bx == x / 64 && by == y / 64 && bz == z / 64,
                forall|j: int| 0 <= j < i ==> !holds(#[trigger] self@[j], x, y, z),
            decreases self.bricks@.len() - i,
        {
            let p = self.bricks[i].pos;
            assert(self@[i as int] == self.bricks@[i as int]@);
            if p.0 as u64 == bx && p.1 as u64 == by && p.2 as u64 == bz {
                assert(holds(self@[i as int], x, y, z));
                return true;
            }
            i = i + 1;
        }
        false
    }

    /// The voxel at global voxel `(x, y, z)`, from the first brick that holds
    /// it; `OutOfBounds` where none does.
    pub fn get_voxel(&self, x: u64, y: u64, z: u64) -> (r: Result<Voxel, VoxelError>)
        requires
            self.wf(),
        ensures
            r == (match voxel_at(self@, x, y, z) {
                Some(v) => Ok::<Voxel, VoxelError>(v),
                None => Err(VoxelError::OutOfBounds),
            }),
    {
        let bx = x / BRICK_EDGE;
        let by = y / BRICK_EDGE;
        let bz = z / BRICK_EDGE;
        let mut i: usize = 0;
        while i < self.bricks.len()
            invariant
                self.wf(),
                i <= self.bricks@.len(),
                bx == x / 64 && by == y / 64 && bz == z / 64,
                voxel_at(self@, x, y, z) == voxel_from(self@, x, y, z, i as int),
            decreases self.bricks@.len() - i,
        {
            let b = &self.bricks[i];
            assert(self@[i as int] == b@);
            if b.pos.0 as u64 == bx && b.pos.1 as u64 == by && b.pos.2 as u64 == bz {
                assert(in_brick(x % 64, y % 64, z % 64));
                return b.get(x % BRICK_EDGE, y % BRICK_EDGE, z % BRICK_EDGE);
            }
            i = i + 1;
        }
        Err(VoxelError::OutOfBounds)
    }

    /// Writes `voxel` at global voxel `(x, y, z)` into the brick that holds
    /// it, which becomes dirty. Fails with `OutOfBounds`, changing nothing,
    /// where no brick of the model holds that voxel.
    pub fn set_voxel(&mut self, x: u64, y: u64, z: u64, voxel: Voxel) -> (r: Result<
        (),
        VoxelError,
    >)
        requires
            old(self).wf(),
        ensures
            final(self).wf(),
            final(self)@ == model_with(old(self)@, x, y, z, voxel),
            r == (if covers(old(self)@, x, y, z) {
                Ok::<(), VoxelError>(())
            } else {
                Err(VoxelError::OutOfBounds)
            }),
            !covers(old(self)@, x, y, z) ==> final(self)@ == old(self)@,
    {
        let bx = x / BRICK_EDGE;
        let by = y / BRICK_EDGE;
        let bz = z / BRICK_EDGE;
        let ghost old_view = self@;
        proof {
            assert forall|j: int| 0 <= j < self.bricks@.len() implies (#[trigger] self.bricks@[j]).wf() by {
                assert(old_view[j] == self.bricks@[j]@);
            }
            lemma_model_with_ok(old_view, x, y, z, voxel);
        }
        let mut found = false;
        let mut i: usize = 0;
        while i < self.bricks.len()
            invariant
                i <= self.bricks@.len(),
                self.bricks@.len() == old_view.len(),
                all_wf(self.bricks@),
                bx == x / 64 && by == y / 64 && bz == z / 64,
                forall|j: int|
                    0 <= j < i ==> (#[trigger] self.bricks@[j])@ == model_with(
                        old_view,
                        x,
                        y,
                        z,
                        voxel,
                    )[j],
                forall|j: int| i <= j < old_view.len() ==> (#[trigger] self.bricks@[j])@ == old_view[j],
                found == exists|j: int| 0 <= j < i && holds(#[trigger] old_view[j], x, y, z),
            decreases self.bricks@.len() - i,
        {
            let p = self.bricks[i].pos;
            if p.0 as u64 == bx && p.1 as u64 == by && p.2 as u64 == bz {
                assert(holds(old_view[i as int], x, y, z));
                proof {
                    assert(in_brick(x % 64, y % 64, z % 64));
                }
                let _ = self.bricks[i].set(x % BRICK_EDGE, y % BRICK_EDGE, z % BRICK_EDGE, voxel);
                found = true;
            } else {
                assert(!holds(old_view[i as int], x, y, z));
            }
            i = i + 1;
        }
        assert(self@ =~= model_with(old_view, x, y, z, voxel));
        if found {
            Ok(())
        } else {
            assert(old_view =~= model_with(old_view, x, y, z, voxel));
            Err(VoxelError::OutOfBounds)
        }
    }
}

/// A store of voxels that accepts per-voxel reads and edits.
pub trait Modifyable {
    /// The bricks that hold the voxels.
    spec fn voxel_bricks(&self) -> Seq<BrickView>;

    /// Every brick holds one voxel per cell.
    spec fn well_formed(&self) -> bool;

    /// The voxel at global voxel `(x, y, z)`.
    fn get_voxel(&self, x: u64, y: u64, z: u64) -> (r: Result<Voxel, VoxelError>)
        requires
            self.well_formed(),
        ensures
            r == (match voxel_at(self.voxel_bricks(), x, y, z) {
                Some(v) => Ok::<Voxel, VoxelError>(v),
                None => Err(VoxelError::OutOfBounds),
            }),
    ;

    /// Writes `voxel` at global voxel `(x, y, z)`.
    fn set_voxel(&mut self, x: u64, y: u64, z: u64, voxel: Voxel) -> (r: Result<(), VoxelError>)
        requires
            old(self).well_formed(),
        ensures
            final(self).well_formed(),
            final(self).voxel_bricks() == model_with(old(self).voxel_bricks(), x, y, z, voxel),
            r == (if covers(old(self).voxel_bricks(), x, y, z) {
                Ok::<(), VoxelError>(())
            } else {
                Err(VoxelError::OutOfBounds)
            }),
    ;
}

impl Modifyable for VoxModel {
    open spec fn voxel_bricks(&self) -> Seq<BrickView> {
        self@
    }

    open spec fn well_formed(&self) -> bool {
        self.wf()
    }

    fn get_voxel(&self, x: u64, y: u64, z: u64) -> (r: Result<Voxel, VoxelError>) {
        VoxModel::get_voxel(self, x, y, z)
    }

    fn set_voxel(&mut self, x: u64, y: u64, z: u64, voxel: Voxel) -> (r: Result<(), VoxelError>) {
        VoxModel::set_voxel(self, x, y, z, voxel)
    }
}

/// The abstract content of a model.
pub struct ModelView {
    pub editable: bool,
    pub bricks: Seq<BrickView>,
}

/// The kinds of model a scene can hold.
pub enum Model {
    /// Content fixed at load time; edits are refused.
    Static(VoxModel),
    /// Content that accepts per-voxel edits.
    Editable(VoxModel),
}

impl View for Model {
    type V = ModelView;

    open spec fn view(&self) -> ModelView {
        ModelView { editable: self is Editable, bricks: self.content()@ }
    }
}

impl Model {
    /// The bricks of the model, whatever its kind.
    pub open spec fn content(&self) -> &VoxModel {
        match self {
            Model::Static(m) => m,
            Model::Editable(m) => m,
        }
    }

    pub open spec fn is_editable(&self) -> bool {
        self is Editable
    }

    pub open spec fn wf(&self) -> bool {
        self.content().wf()
    }

    /// The bricks that represent the model's current voxel content.
    pub fn get_bricks(&self) -> (r: &Vec<Brick>)
        ensures
            bricks_view(r@) == self@.bricks,
    {
        match self {
            Model::Static(m) => m.get_bricks(),
            Model::Editable(m) => m.get_bricks(),
        }
    }

    /// Writes `voxel` at global voxel `(x, y, z)` of an editable model; a
    /// static model refuses with `NotModifiable` and stays as it was.
    pub fn set_voxel(&mut self, x: u64, y: u64, z: u64, voxel: Voxel) -> (r: Result<(), VoxelError>)
        requires
            old(self).wf(),
        ensures
            final(self).wf(),
            !old(self).is_editable() ==> r == Err::<(), VoxelError>(VoxelError::NotModifiable)
                && final(self)@ == old(self)@,
            old(self).is_editable() ==> final(self)@ == (ModelView {
                editable: true,
                bricks: model_with(old(self)@.bricks, x, y, z, voxel),
            }) && r == (if covers(old(self)@.bricks, x, y, z) {
                Ok::<(), VoxelError>(())
            } else {
                Err(VoxelError::OutOfBounds)
            }),
            r is Err ==> final(self)@ == old(self)@,
    {
        match self {
            Model::Static(_) => Err(VoxelError::NotModifiable),
            Model::Editable(vm) => vm.set_voxel(x, y, z, voxel),
        }
    }

    /// Whether the model accepts edits.
    pub fn editable(&self) -> (r: bool)
        ensures
            r == self.is_editable(),
    {
        match self {
            Model::Static(_) => false,
            Model::Editable(_) => true,
        }
    }
}

} // verus!

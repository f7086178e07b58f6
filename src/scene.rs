use vstd::prelude::*;

use crate::brick::Brick;
use crate::error::VoxelError;
use crate::model::{
    bricks_ok, clean_bricks, covers, lemma_model_with_ok, model_with, voxel_at, Model, ModelView,
};
use crate::voxel::Voxel;

verus! {

/// Whether slot `i` of a scene holds a model that has not been removed.
pub open spec fn live(s: Seq<Option<ModelView>>, i: int) -> bool {
    0 <= i < s.len() && s[i] is Some
}

/// The abstract content of a scene: one slot per model ever added, `None`
/// once the model was removed.
pub open spec fn scene_view(models: Seq<Option<Model>>) -> Seq<Option<ModelView>> {
    models.map_values(
        |m: Option<Model>|
            match m {
                Some(m) => Some(m@),
                None => None,
            },
    )
}

/// The slot count is a machine size, and the bricks of every live model of
/// `s` are well formed: full, at distinct positions, a machine size in number.
pub open spec fn view_wf(s: Seq<Option<ModelView>>) -> bool {
    &&& s.len() <= usize::MAX
    &&& forall|m: int| live(s, m) ==> bricks_ok((#[trigger] s[m]).unwrap().bricks)
}

/// `mv` with every brick marked clean.
pub open spec fn clean_model(mv: ModelView) -> ModelView {
    ModelView { editable: mv.editable, bricks: clean_bricks(mv.bricks) }
}

/// The first live slot from `i` on whose model has a brick holding global
/// voxel `(x, y, z)`.
pub open spec fn first_cover(s: Seq<Option<ModelView>>, x: u64, y: u64, z: u64, i: int) -> Option<int>
    decreases s.len() - i,
{
    if i < 0 || i >= s.len() {
        None
    } else if live(s, i) && covers(s[i].unwrap().bricks, x, y, z) {
        Some(i)
    } else {
        first_cover(s, x, y, z, i + 1)
    }
}

/// A stable handle on a model of a scene. A slot is never reused, so a
/// reference outlives the removal of any other model.
#[derive(Copy, Clone, Debug, PartialEq, Eq, Structural)]
pub struct ModelReference {
    idx: usize,
}

impl ModelReference {
    /// The slot that the reference names.
    pub closed spec fn id(&self) -> int {
        self.idx as int
    }

    /// The slot that the reference names.
    pub fn index(&self) -> (r: usize)
        ensures
            r == self.id(),
    {
        self.idx
    }
}

/// A collection of models, each reachable through the reference returned
/// when it was added.
pub struct Scene {
    models: Vec<Option<Model>>,
}

impl View for Scene {
    type V = Seq<Option<ModelView>>;

    closed spec fn view(&self) -> Seq<Option<ModelView>> {
        scene_view(self.models@)
    }
}

impl Scene {
    /// Every brick of every live model holds one voxel per cell.
    pub open spec fn wf(&self) -> bool {
        view_wf(self@)
    }

    /// An empty scene.
    pub fn new() -> (s: Scene)
        ensures
            s.wf(),
            s@ == Seq::<Option<ModelView>>::empty(),
    {
        let s = Scene { models: Vec::new() };
        assert(s@ =~= Seq::<Option<ModelView>>::empty());
        s
    }

    /// Number of slots: models added so far, removed ones included.
    pub fn len(&self) -> (r: usize)
        ensures
            r == self@.len(),
    {
        self.models.len()
    }

    /// Whether slot `m` holds a live model.
    pub fn slot_is_live(&self, m: usize) -> (r: bool)
        ensures
            r == live(self@, m as int),
    {
        m < self.models.len() && self.models[m].is_some()
    }

    /// Number of bricks of the live model in slot `m`.
    pub fn brick_count(&self, m: usize) -> (r: usize)
        requires
            live(self@, m as int),
        ensures
            r == self@[m as int].unwrap().bricks.len(),
    {
        assert(self@[m as int] == (match self.models@[m as int] {
            Some(x) => Some(x@),
            None => None,
        }));
        match &self.models[m] {
            Some(x) => x.get_bricks().len(),
            None => 0,
        }
    }

    /// Brick `b` of the live model in slot `m`.
    pub fn brick_at(&self, m: usize, b: usize) -> (r: &Brick)
        requires
            live(self@, m as int),
            b < self@[m as int].unwrap().bricks.len(),
        ensures
            r@ == self@[m as int].unwrap().bricks[b as int],
    {
        assert(self@[m as int] == (match self.models@[m as int] {
            Some(x) => Some(x@),
            None => None,
        }));
        let x = self.models[m].as_ref().unwrap();
        let bs = x.get_bricks();
        assert(x@.bricks[b as int] == bs@[b as int]@);
        &bs[b]
    }

    /// Marks every brick of the live model in slot `m` clean.
    pub fn clear_dirty(&mut self, m: usize)
        requires
            old(self).wf(),
            live(old(self)@, m as int),
        ensures
            final(self).wf(),
            final(self)@ == old(self)@.update(m as int, Some(clean_model(old(self)@[m as int].unwrap()))),
    {
        assert(self@[m as int] == (match self.models@[m as int] {
            Some(x) => Some(x@),
            None => None,
        }));
        let ghost before = self@[m as int].unwrap();
        match &mut self.models[m] {
            None => {},
            Some(x) => {
                let vm = match x {
                    Model::Static(vm) => vm,
                    Model::Editable(vm) => vm,
                };
                vm.clear_dirty();
            },
        }
        assert(self@ =~= old(self)@.update(m as int, Some(clean_model(before))));
        proof {
            let s2 = self@;
            assert forall|j: int| live(s2, j) implies bricks_ok((#[trigger] s2[j]).unwrap().bricks) by {
                if j != m {
                    assert(s2[j] == old(self)@[j]);
                }
            }
        }
    }

    /// Adds a model in a new slot and returns its reference.
    pub fn add_model(&mut self, model: Model) -> (r: ModelReference)
        requires
            old(self).wf(),
            model.wf(),
        ensures
            final(self).wf(),
            final(self)@ == old(self)@.push(Some(model@)),
            r.id() == old(self)@.len(),
    {
        let idx = self.models.len();
        let ghost m = model;
        self.models.push(Some(model));
        assert(self@ =~= old(self)@.push(Some(m@)));
        proof {
            let s2 = self@;
            assert(s2.len() == self.models@.len());
            assert(self.models@.len() == self.models.len());
            assert forall|j: int| live(s2, j) implies bricks_ok((#[trigger] s2[j]).unwrap().bricks) by {
                if j != idx {
                    assert(s2[j] == old(self)@[j]);
                }
            }
        }
        ModelReference { idx }
    }

    /// Whether `r` names a model that is still in the scene.
    pub fn is_live(&self, r: &ModelReference) -> (b: bool)
        ensures
            b == live(self@, r.id()),
    {
        r.idx < self.models.len() && self.models[r.idx].is_some()
    }

    /// Removes the model named by `r`; its slot stays empty for good.
    pub fn remove_model(&mut self, r: &ModelReference) -> (res: Result<(), VoxelError>)
        requires
            old(self).wf(),
        ensures
            final(self).wf(),
            live(old(self)@, r.id()) ==> res == Ok::<(), VoxelError>(()) && final(self)@ == old(
                self,
            )@.update(r.id(), None),
            !live(old(self)@, r.id()) ==> res == Err::<(), VoxelError>(VoxelError::InvalidReference)
                && final(self)@ == old(self)@,
    {
        if r.idx < self.models.len() && self.models[r.idx].is_some() {
            self.models.set(r.idx, None);
            assert(self@ =~= old(self)@.update(r.id(), None));
            Ok(())
        } else {
            Err(VoxelError::InvalidReference)
        }
    }

    /// The model named by `r`.
    pub fn get_model(&self, r: &ModelReference) -> (res: Result<&Model, VoxelError>)
        ensures
            live(self@, r.id()) ==> (res matches Ok(m) && Some(m@) == self@[r.id()]),
            !live(self@, r.id()) ==> res == Err::<&Model, VoxelError>(VoxelError::InvalidReference),
    {
        if r.idx < self.models.len() {
            match &self.models[r.idx] {
                Some(m) => Ok(m),
                None => Err(VoxelError::InvalidReference),
            }
        } else {
            Err(VoxelError::InvalidReference)
        }
    }

    /// The bricks of the model named by `r`.
    pub fn get_bricks(&self, r: &ModelReference) -> (res: Result<&Vec<Brick>, VoxelError>)
        ensures
            live(self@, r.id()) ==> (res matches Ok(bs) && crate::model::bricks_view(bs@)
                == self@[r.id()].unwrap().bricks),
            !live(self@, r.id()) ==> res == Err::<&Vec<Brick>, VoxelError>(
                VoxelError::InvalidReference,
            ),
    {
        match self.get_model(r) {
            Ok(m) => Ok(m.get_bricks()),
            Err(e) => Err(e),
        }
    }

    /// The voxel at global voxel `(x, y, z)` of the model named by `r`.
    pub fn get_voxel(&self, r: &ModelReference, x: u64, y: u64, z: u64) -> (res: Result<
        Voxel,
        VoxelError,
    >)
        requires
            self.wf(),
        ensures
            res == (if !live(self@, r.id()) {
                Err::<Voxel, VoxelError>(VoxelError::InvalidReference)
            } else {
                match voxel_at(self@[r.id()].unwrap().bricks, x, y, z) {
                    Some(v) => Ok(v),
                    None => Err(VoxelError::OutOfBounds),
                }
            }),
    {
        match self.get_model(r) {
            Err(e) => Err(e),
            Ok(m) => {
                let vm = match m {
                    Model::Static(vm) => vm,
                    Model::Editable(vm) => vm,
                };
                vm.get_voxel(x, y, z)
            },
        }
    }

    /// Writes `voxel` at global voxel `(x, y, z)` of the model named by `r`.
    pub fn set_voxel(&mut self, r: &ModelReference, x: u64, y: u64, z: u64, voxel: Voxel) -> (res:
        Result<(), VoxelError>)
        requires
            old(self).wf(),
        ensures
            final(self).wf(),
            res == (if !live(old(self)@, r.id()) {
                Err::<(), VoxelError>(VoxelError::InvalidReference)
            } else if !old(self)@[r.id()].unwrap().editable {
                Err(VoxelError::NotModifiable)
            } else if !covers(old(self)@[r.id()].unwrap().bricks, x, y, z) {
                Err(VoxelError::OutOfBounds)
            } else {
                Ok(())
            }),
            res is Ok ==> final(self)@ == old(self)@.update(
                r.id(),
                Some(
                    ModelView {
                        editable: true,
                        bricks: model_with(old(self)@[r.id()].unwrap().bricks, x, y, z, voxel),
                    },
                ),
            ),
            res is Err ==> final(self)@ == old(self)@,
    {
        if r.idx >= self.models.len() {
            return Err(VoxelError::InvalidReference);
        }
        let i = r.idx;
        assert(self@[i as int] == (match self.models@[i as int] {
            Some(m) => Some(m@),
            None => None,
        }));
        match &mut self.models[i] {
            None => {
                assert(self@ =~= old(self)@);
                Err(VoxelError::InvalidReference)
            },
            Some(m) => {
                let res = m.set_voxel(x, y, z, voxel);
                proof {
                    assert(self.models@[i as int] is Some);
                    lemma_model_with_ok(old(self)@[r.id()].unwrap().bricks, x, y, z, voxel);
                    if res is Ok {
                        assert(self@ =~= old(self)@.update(
                            r.id(),
                            Some(
                                ModelView {
                                    editable: true,
                                    bricks: model_with(old(self)@[r.id()].unwrap().bricks, x, y, z, voxel),
                                },
                            ),
                        ));
                    } else {
                        assert(self@ =~= old(self)@);
                    }
                    let s2 = self@;
                    assert forall|q: int| live(s2, q) implies bricks_ok(
                        (#[trigger] s2[q]).unwrap().bricks,
                    ) by {
                        if q != r.id() {
                            assert(s2[q] == old(self)@[q]);
                        }
                    }
                }
                res
            },
        }
    }

    /// Writes `voxel` at global voxel `(x, y, z)` of the first live model
    /// that has a brick holding it. Fails with `OutOfBounds` where no live
    /// model covers the voxel, and with `NotModifiable` where the first one
    /// that does is read-only; the scene is then unchanged.
    pub fn set_voxel_at(&mut self, x: u64, y: u64, z: u64, voxel: Voxel) -> (res: Result<(), VoxelError>)
        requires
            old(self).wf(),
        ensures
            final(self).wf(),
            match first_cover(old(self)@, x, y, z, 0) {
                None => res == Err::<(), VoxelError>(VoxelError::OutOfBounds) && final(self)@ == old(
                    self,
                )@,
                Some(m) => if !old(self)@[m].unwrap().editable {
                    res == Err::<(), VoxelError>(VoxelError::NotModifiable) && final(self)@ == old(
                        self,
                    )@
                } else {
                    res == Ok::<(), VoxelError>(()) && final(self)@ == old(self)@.update(
                        m,
                        Some(
                            ModelView {
                                editable: true,
                                bricks: model_with(old(self)@[m].unwrap().bricks, x, y, z, voxel),
                            },
                        ),
                    )
                },
            },
    {
        let n = self.models.len();
        let mut i: usize = 0;
        while i < n
            invariant
                n == self.models@.len(),
                n == self@.len(),
                i <= n,
                self.wf(),
                self@ == old(self)@,
                first_cover(self@, x, y, z, 0) == first_cover(self@, x, y, z, i as int),
            decreases n - i,
        {
            assert(self@[i as int] == (match self.models@[i as int] {
                Some(m) => Some(m@),
                None => None,
            }));
            let hit = match &self.models[i] {
                None => false,
                Some(Model::Static(vm)) => vm.covers_voxel(x, y, z),
                Some(Model::Editable(vm)) => vm.covers_voxel(x, y, z),
            };
            if hit {
                assert(first_cover(self@, x, y, z, i as int) == Some(i as int));
                let r = ModelReference { idx: i };
                return self.set_voxel(&r, x, y, z, voxel);
            }
            assert(first_cover(self@, x, y, z, i as int) == first_cover(self@, x, y, z, i + 1));
            i = i + 1;
        }
        Err(VoxelError::OutOfBounds)
    }
}

/// Adding models and then removing one leaves every other reference naming
/// the model it named before, and the removed reference naming none.
pub proof fn lemma_reference_stability(
    s: Seq<Option<ModelView>>,
    added: Seq<ModelView>,
    removed: int,
    other: int,
)
    requires
        live(s + added.map_values(|m: ModelView| Some(m)), removed),
        live(s + added.map_values(|m: ModelView| Some(m)), other),
        other != removed,
    ensures
        ({
            let before = s + added.map_values(|m: ModelView| Some(m));
            let after = before.update(removed, None);
            &&& live(after, other)
            &&& after[other] == before[other]
            &&& !live(after, removed)
        }),
{
}

/// Once a model is removed its reference names no live model, so every
/// scene operation given that reference fails with `InvalidReference`; a
/// later addition does not bring it back.
pub proof fn lemma_removed_reference_dead(s: Seq<Option<ModelView>>, removed: int, added: Seq<ModelView>)
    requires
        live(s, removed),
    ensures
        !live(s.update(removed, None), removed),
        !live(s.update(removed, None) + added.map_values(|m: ModelView| Some(m)), removed),
{
    let t = s.update(removed, None) + added.map_values(|m: ModelView| Some(m));
    assert(t[removed] == s.update(removed, None)[removed]);
}

} // verus!

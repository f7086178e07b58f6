use vstd::prelude::*;

use crate::error::VoxelError;
use crate::scene::Scene;

verus! {

/// Edge of the square pixel tile that one compute work group covers.
pub const TILE_SIZE: u32 = 32;

/// The work-group grid that covers a `width` by `height` viewport.
///
/// A viewport that whole tiles cannot cover is refused rather than padded.
pub fn dispatch_size(width: u32, height: u32) -> (r: Result<(u32, u32, u32), VoxelError>)
    ensures
        width % 32 == 0 && height % 32 == 0 ==> r == Ok::<(u32, u32, u32), VoxelError>(
            (width / 32, height / 32, 1),
        ),
        !(width % 32 == 0 && height % 32 == 0) ==> r == Err::<(u32, u32, u32), VoxelError>(
            VoxelError::DispatchError,
        ),
{
    if width % TILE_SIZE == 0 && height % TILE_SIZE == 0 {
        Ok((width / TILE_SIZE, height / TILE_SIZE, 1))
    } else {
        Err(VoxelError::DispatchError)
    }
}

/// The object that the scripting layer reaches the voxel core through.
#[derive(Copy, Clone, Debug)]
pub struct VoxelInterface;

impl VoxelInterface {
    pub fn new() -> (r: VoxelInterface) {
        VoxelInterface
    }

    /// A new, empty scene.
    pub fn new_scene(&self) -> (s: Scene)
        ensures
            s.wf(),
            s@ == Seq::<Option<crate::model::ModelView>>::empty(),
    {
        Scene::new()
    }
}

/// Where a frame of the voxel renderer stands.
#[derive(Copy, Clone, Debug, PartialEq, Eq, Structural)]
pub enum FrameState {
    /// No frame in progress; the previous dispatch has completed.
    Idle,
    /// The scene was read under its lock.
    SceneSnapshotted,
    /// The buffer holds the snapshot.
    GpuSynced,
    /// The compute pass was submitted and has not completed.
    Dispatched,
}

/// What happened to the frame.
#[derive(Copy, Clone, Debug, PartialEq, Eq, Structural)]
pub enum FrameEvent {
    /// The scene was locked and read.
    Snapshot,
    /// The buffer sync succeeded.
    Synced,
    /// The buffer sync or the dispatch was refused; the frame is dropped.
    Failed,
    /// The compute pass was submitted.
    Submitted,
    /// The compute pass completed.
    Completed,
}

/// The state after `event`, or `None` where the event may not happen in
/// `state`: frames go `Idle`, `SceneSnapshotted`, `GpuSynced`, `Dispatched`
/// and back to `Idle`, so no frame dispatches before it synced, and no frame
/// starts while a dispatch is unresolved.
pub open spec fn frame_step(state: FrameState, event: FrameEvent) -> Option<FrameState> {
    match (state, event) {
        (FrameState::Idle, FrameEvent::Snapshot) => Some(FrameState::SceneSnapshotted),
        (FrameState::SceneSnapshotted, FrameEvent::Synced) => Some(FrameState::GpuSynced),
        (FrameState::SceneSnapshotted, FrameEvent::Failed) => Some(FrameState::Idle),
        (FrameState::GpuSynced, FrameEvent::Submitted) => Some(FrameState::Dispatched),
        (FrameState::GpuSynced, FrameEvent::Failed) => Some(FrameState::Idle),
        (FrameState::Dispatched, FrameEvent::Completed) => Some(FrameState::Idle),
        _ => None,
    }
}

/// Advances a frame by one event.
pub fn next_frame_state(state: FrameState, event: FrameEvent) -> (r: Option<FrameState>)
    ensures
        r == frame_step(state, event),
{
    match (state, event) {
        (FrameState::Idle, FrameEvent::Snapshot) => Some(FrameState::SceneSnapshotted),
        (FrameState::SceneSnapshotted, FrameEvent::Synced) => Some(FrameState::GpuSynced),
        (FrameState::SceneSnapshotted, FrameEvent::Failed) => Some(FrameState::Idle),
        (FrameState::GpuSynced, FrameEvent::Submitted) => Some(FrameState::Dispatched),
        (FrameState::GpuSynced, FrameEvent::Failed) => Some(FrameState::Idle),
        (FrameState::Dispatched, FrameEvent::Completed) => Some(FrameState::Idle),
        _ => None,
    }
}

/// Only a synced frame can be dispatched, and only a completed dispatch lets
/// the next frame take its snapshot.
pub proof fn lemma_frame_order(state: FrameState, event: FrameEvent)
    ensures
        frame_step(state, event) == Some(FrameState::Dispatched) ==> state == FrameState::GpuSynced,
        frame_step(state, event) == Some(FrameState::SceneSnapshotted) ==> state == FrameState::Idle,
        state == FrameState::Dispatched && event != FrameEvent::Completed ==> frame_step(state, event)
            is None,
{
}

} // verus!

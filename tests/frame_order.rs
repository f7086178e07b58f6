use husky_voxel::render::{next_frame_state, FrameEvent, FrameState, VoxelInterface};

#[test]
fn frame_runs_through_its_states_in_order() {
    let mut s = FrameState::Idle;
    for (event, expected) in [
        (FrameEvent::Snapshot, FrameState::SceneSnapshotted),
        (FrameEvent::Synced, FrameState::GpuSynced),
        (FrameEvent::Submitted, FrameState::Dispatched),
        (FrameEvent::Completed, FrameState::Idle),
    ] {
        s = next_frame_state(s, event).unwrap();
        assert_eq!(s, expected);
    }
}

#[test]
fn frame_refuses_events_out_of_order() {
    assert_eq!(next_frame_state(FrameState::Idle, FrameEvent::Submitted), None);
    assert_eq!(next_frame_state(FrameState::SceneSnapshotted, FrameEvent::Submitted), None);
    assert_eq!(next_frame_state(FrameState::Dispatched, FrameEvent::Snapshot), None);
    assert_eq!(next_frame_state(FrameState::Dispatched, FrameEvent::Failed), None);
    assert_eq!(next_frame_state(FrameState::GpuSynced, FrameEvent::Failed), Some(FrameState::Idle));
    assert_eq!(
        next_frame_state(FrameState::SceneSnapshotted, FrameEvent::Failed),
        Some(FrameState::Idle)
    );
}

#[test]
fn interface_makes_empty_scenes() {
    let iface = VoxelInterface::new();
    let scene = iface.new_scene();
    assert_eq!(scene.len(), 0);
}

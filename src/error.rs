use vstd::prelude::*;

verus! {

/// Why a voxel model could not be loaded.
#[derive(Copy, Clone, Debug, PartialEq, Eq, Structural)]
pub enum ModelLoadError {
    /// The model file does not exist or cannot be read.
    NotFound,
    /// The bytes are not a well-formed voxel model.
    ParseError,
}

/// The failures of the voxel core. None of them is fatal: each is handed back
/// to the caller and leaves the scene and the buffer as they were.
#[derive(Copy, Clone, Debug, PartialEq, Eq, Structural)]
pub enum VoxelError {
    /// A coordinate lies outside every brick it could address.
    OutOfBounds,
    /// A model reference does not name a live model of the scene.
    InvalidReference,
    /// An edit was attempted on a read-only model.
    NotModifiable,
    /// A model failed to load.
    ModelLoad(ModelLoadError),
    /// The packed scene would not fit in the buffer.
    CapacityExceeded,
    /// The viewport cannot be covered by whole work-group tiles.
    DispatchError,
}

} // verus!

//! Voxel scene storage and the packing of a scene into the word buffer read
//! by a raymarching compute pass.

pub mod voxel;
pub mod error;
pub mod brick;
pub mod model;
pub mod scene;
pub mod sdf;
pub mod builder;
pub mod vox;
pub mod render;

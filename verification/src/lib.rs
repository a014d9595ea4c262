//! Voxelization of triangle meshes.
pub mod chunk;
pub mod fill;
pub mod geometry;
pub mod grid;
pub mod laws;
pub mod neighbors;
pub mod offset;
pub mod point_map;
pub mod probe;
pub mod scalar;
pub mod shift;
pub mod snap;
pub mod surface;
pub mod svo;
pub mod vertices;
pub mod voxel;
pub mod voxelizer;

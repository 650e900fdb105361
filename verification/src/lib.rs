//! A sparse, level-indexed spatial index over a boolean occupancy field in 3D
//! integer space ("voxels"), with boolean set algebra (union, intersection,
//! difference, complement-within-domain) over such indexes, rasterization of
//! geometric primitives (box, sphere, cylinder, polyhedron) into the index,
//! and export of occupied cells as a point stream for an external dense-voxel
//! file codec.

pub mod coords;
pub mod storage;
pub mod csg;
pub mod raster;
pub mod export;

pub use coords::Coord;
pub use storage::CsgError;
pub use storage::VoxelCSG;

//! Stained-glass panel pipeline: the integer and byte-level logic behind
//! tessellation, palette assignment, mesh assembly and GLB packaging.

pub mod geom;
pub mod glb;
pub mod kmeans;
pub mod merge;
pub mod mesh;
pub mod palette;
pub mod raster;

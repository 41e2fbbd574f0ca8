//! Mesh-building core for converting voxel structures into Source 2 map
//! geometry: greedy face merging, half-edge topology and KeyValues2 text.

pub mod fxmap;
pub mod halfedge;
pub mod names;
pub mod greedy;
pub mod kv2;
pub mod vmap;

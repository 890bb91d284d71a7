//! Slicing tile sets out of source images, packing the tiles into one atlas,
//! and loading each named tile set at most once through a shared cache.

pub mod atlas;
pub mod cache;
pub mod geometry;
pub mod prefab;
pub mod set;
pub mod tileset;

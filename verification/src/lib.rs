//! Core of a deep-zoom tiled image viewer: tile addressing and pyramid
//! geometry, level-of-detail selection, the section cache that keeps the
//! needed tiles resident, the tile store's load protocol, and the offline
//! pyramid builder that extrapolates coarse levels from fine ones.

pub mod builder;
pub mod cache;
pub mod format;
pub mod geometry;
pub mod lod;
pub mod pixels;
pub mod ratio;
pub mod text;

pub use ratio::Ratio;

//! Core routines for turning a scalar field sampled on a global
//! equirectangular grid into derived raster products: the bounding-window
//! enumeration behind the great-circle neighbor search, wraparound-aware
//! connected-component partitioning with per-component labels and colors,
//! and the fixed-point color mapping they share.

pub mod colors;
pub mod geometry;
pub mod partition;
pub mod video;

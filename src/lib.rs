//! Multi-objective evolutionary segmentation of raster images.
//!
//! A segmentation is a per-pixel label array. The library decodes label
//! arrays into canonical 4-connected segments, scores them on contrast,
//! homogeneity and segment size, seeds and breeds candidate segmentations,
//! and keeps a population ordered by domination count and crowding.

pub mod b_heap;
pub mod decode;
pub mod engine;
pub mod fitness;
pub mod graph;
pub mod genome;
pub mod image_proc;
mod random;
pub mod ranking;
pub mod tree_seed;

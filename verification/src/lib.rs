//! Sparse three-level hierarchical bitmap for geographic coverage.
//!
//! A [`journey_bitmap::JourneyBitmap`] holds a sparse set of tiles, each tile
//! a sparse set of blocks, each block a fixed 64 x 64 bit grid. The crate also
//! provides a wire codec for the structure and a caching renderer wrapper.

pub mod codec;
pub mod journey_area_utils;
pub mod journey_bitmap;
pub mod map_renderer;

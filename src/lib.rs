//! Edge-preserving smoothing of RGB rasters.
//!
//! A pass replaces a pixel by the mean of its 4-connected neighbours when the
//! two differ enough in hue, saturation or lightness. The colour-space test
//! itself is made by the caller; this crate holds the grid, the neighbour
//! topology, the neighbour sums, the rules that settle a pixel without that
//! test, the pass, the multi-pass pipeline and the side-by-side composite.

pub mod grid;
pub mod neighbors;
pub mod pass;
pub mod pipeline;

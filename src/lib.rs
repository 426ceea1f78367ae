//! Adaptive quadtree image approximation: summed-area statistics, a greedy
//! refinement engine, and the renderer that turns the tree into pixels.

pub mod image_processor;
pub mod prefix_sum_matrix;
pub mod quad_tree;
pub mod utils;

use vstd::prelude::*;

verus! {

/// Errors reported by the library.
#[derive(Debug, Clone, Copy, PartialEq, Eq, Structural)]
pub enum CompressError {
    /// The pixel grid is empty, has an empty row, or has rows of unequal length.
    InvalidDimensions,
    /// Every leaf of the tree is too small to be split any further.
    NoMoreSplittableRegions,
    /// A color string is not of the form `#rrggbb`.
    InvalidColor,
}

} // verus!

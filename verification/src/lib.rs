//! A perceptual image deduplication engine.
//!
//! The engine normalizes image orientation, computes exact content hashes,
//! keeps them in a persistent incremental cache, scores pairwise structural
//! similarity, and merges the results into duplicate groups.

use vstd::prelude::*;

pub mod duplicates;
pub mod error;
pub mod hash;
pub mod image;
pub mod paths;
pub mod ssim;
pub mod store;

verus! {

/// Scaled similarity threshold: a score of 9500 stands for 0.95.
pub const SIMILARITY_THRESHOLD_SCALED: u64 = 9500;

} // verus!

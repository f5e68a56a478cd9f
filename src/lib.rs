//! Deduplication of transit lines.
//!
//! A dataset holds stops with fixed-point coordinates and lines with ordered
//! member references. A cleanup pass keeps the lines with enough stops,
//! groups them by stop count, finds pairs that trace the same stops within
//! a tolerance (in either direction), removes one line of each pair by a
//! keyword rule, and finally drops lines whose name holds an exclusion
//! keyword. Projections for listing and lookup read the cleaned dataset.
use vstd::prelude::*;

pub mod cleanup;
pub mod duplicates;
pub mod filter;
pub mod geo;
pub mod line;
pub mod projection;
pub mod route;

verus! {

} // verus!

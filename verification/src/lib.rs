//! Compact, serializable data model for a genomic regulatory-effect coverage
//! index: bucketed genomic coordinates, a facet catalog, per-observation facet
//! links, deduplicated bucket-membership tracking, and a deterministic binary
//! codec, with compressed bitmaps for feature-membership sets.

pub mod bitmap;
pub mod chrom_data;
pub mod codec;
pub mod coverage_data;
pub mod facets;
pub mod interval;
pub mod regeffects;
pub mod serialize;

use vstd::prelude::*;

verus! {

/// Database identifier for observations, features and facet values.
pub type DbID = u64;

} // verus!

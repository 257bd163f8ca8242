//! Verified core of a disk-usage analyzer: a scan builder that turns a
//! linear filesystem walk into a parent/child entry graph with bottom-up
//! directory sizes, plus classification, duplicate-candidate grouping and
//! largest/oldest rankings over a completed scan.

pub mod analyzer;
pub mod builder;
pub mod entry;
pub mod outside;
pub mod paths;
pub mod panels;
pub mod sorting;

use vstd::prelude::*;

verus! {

/// Saturating truncation of a mathematical sum into the `u64` range.
pub open spec fn clip64(x: int) -> u64 {
    if x > u64::MAX { u64::MAX } else if x < 0 { 0u64 } else { x as u64 }
}

} // verus!

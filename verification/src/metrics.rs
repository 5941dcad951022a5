//! Benchmark report records that hold no measurements of their own.

use vstd::prelude::*;

verus! {

/// The archive a benchmark ran on.
#[derive(Debug, Default)]
pub struct FixtureInfo {
    pub path: String,
    pub size_bytes: u64,
    pub page_count: usize,
}

} // verus!

//! The options of a store and the policy that sizes its segments.

use vstd::prelude::*;

verus! {

/// The least number of rows that the sizing policy asks of a segment.
pub const MIN_SEGMENT_ROWS: usize = 200_000;

/// The number of segments that the sizing policy aims to stay under.
pub const TARGET_MAX_SEGMENTS: u64 = 32;

/// The memtable budget that callers use where they have none of their own: 2 GiB.
pub const DEFAULT_MEMTABLE_BUDGET_BYTES: usize = 2_147_483_648;

/// The greater of two numbers.
pub open spec fn max_of(a: int, b: int) -> int {
    if a >= b {
        a
    } else {
        b
    }
}

/// The smaller of two numbers.
pub open spec fn min_of(a: int, b: int) -> int {
    if a <= b {
        a
    } else {
        b
    }
}

/// The rows per segment that keep the segment count at or under the target,
/// but not under the least segment size.
pub open spec fn desired_rows(approx_rows: int) -> int {
    if approx_rows > 0 {
        max_of((approx_rows + TARGET_MAX_SEGMENTS - 1) / (TARGET_MAX_SEGMENTS as int), MIN_SEGMENT_ROWS as int)
    } else {
        MIN_SEGMENT_ROWS as int
    }
}

/// The rows that fit the memtable budget, at least one.
pub open spec fn memory_cap_rows(avg_kv_bytes: int, mem_budget_bytes: int) -> int {
    max_of(mem_budget_bytes / max_of(avg_kv_bytes, 1), 1)
}

/// The segment size that the policy derives from the estimates.
pub open spec fn segment_size_for(approx_rows: int, avg_kv_bytes: int, mem_budget_bytes: int) -> int {
    max_of(min_of(desired_rows(approx_rows), memory_cap_rows(avg_kv_bytes, mem_budget_bytes)), 1)
}

/// Derives the number of rows per segment from the expected number of rows,
/// the average size of a key with its value and the memtable's byte budget.
pub fn compute_segment_size(approx_rows: u64, avg_kv_bytes: usize, mem_budget_bytes: usize) -> (size: usize)
    ensures
        size == segment_size_for(approx_rows as int, avg_kv_bytes as int, mem_budget_bytes as int),
        size >= 1,
{
    let avg_kv: usize = if avg_kv_bytes > 1 {
        avg_kv_bytes
    } else {
        1
    };
    let desired: u64 = if approx_rows == 0 {
        MIN_SEGMENT_ROWS as u64
    } else {
        let whole: u64 = approx_rows / TARGET_MAX_SEGMENTS;
        let per_segment: u64 = if approx_rows % TARGET_MAX_SEGMENTS == 0 {
            whole
        } else {
            whole + 1
        };
        if per_segment > MIN_SEGMENT_ROWS as u64 {
            per_segment
        } else {
            MIN_SEGMENT_ROWS as u64
        }
    };
    let by_budget: usize = mem_budget_bytes / avg_kv;
    let mem_cap: usize = if by_budget > 1 {
        by_budget
    } else {
        1
    };
    let chosen: usize = if desired < mem_cap as u64 {
        desired as usize
    } else {
        mem_cap
    };
    if chosen > 1 {
        chosen
    } else {
        1
    }
}

/// The options with which a store is opened.
#[derive(Clone, Copy, Debug)]
pub struct StoreOptions {
    /// The number of rows at which a memtable is sealed. Must not be zero.
    pub segment_size: usize,
}

impl Default for StoreOptions {
    fn default() -> (o: Self)
        ensures
            o.segment_size == MIN_SEGMENT_ROWS,
    {
        StoreOptions { segment_size: MIN_SEGMENT_ROWS }
    }
}

impl StoreOptions {
    /// Options with the given segment size.
    pub fn new(segment_size: usize) -> (o: Self)
        ensures
            o.segment_size == segment_size,
    {
        StoreOptions { segment_size }
    }

    /// Options whose segment size the sizing policy derives from the estimates.
    pub fn from_estimates(approx_rows: u64, avg_kv_bytes: usize, mem_budget_bytes: usize) -> (o: Self)
        ensures
            o.segment_size == segment_size_for(approx_rows as int, avg_kv_bytes as int, mem_budget_bytes as int),
            o.segment_size >= 1,
    {
        StoreOptions { segment_size: compute_segment_size(approx_rows, avg_kv_bytes, mem_budget_bytes) }
    }
}

} // verus!

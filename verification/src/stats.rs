//! The records that the engines fill: the result of a run and the counters
//! of the latest run of each engine.

use vstd::prelude::*;

verus! {

/// What a run reports beside distances and predecessors.
#[derive(Clone, Copy, Debug, PartialEq, Eq, Structural)]
pub struct SsspResultInfo {
    /// Accepted relaxations.
    pub relaxations: u64,
    /// Accepted relaxations over light edges.
    pub light_relaxations: u64,
    /// Accepted relaxations over heavy edges.
    pub heavy_relaxations: u64,
    /// Vertices settled.
    pub settled: u32,
    /// 0 on success; two engines report a flag here.
    pub error_code: i32,
}

/// Heap counters of the reference engine.
#[derive(Clone, Copy, Debug, PartialEq, Eq, Structural)]
pub struct BaselineHeapStats {
    pub pushes: u64,
    pub pops: u64,
    pub max_size: u64,
}

/// Heap counters of the plain heap engine.
#[derive(Clone, Copy, Debug, PartialEq, Eq, Structural)]
pub struct SpecHeapStats {
    pub pushes: u64,
    pub pops: u64,
    pub max_size: u64,
}

/// Bucket counters of the delta-stepping engine.
#[derive(Clone, Copy, Debug, PartialEq, Eq, Structural)]
pub struct SsspBucketStats {
    /// Non-empty buckets processed.
    pub buckets_visited: u32,
    /// Light passes, summed over the buckets.
    pub light_pass_repeats: u32,
    /// Highest bucket index allocated.
    pub max_bucket_index: u32,
    /// Restarts made to adjust delta.
    pub restarts: u32,
    /// The delta of the final run, in thousandths.
    pub delta_x1000: u32,
    /// Heavy relaxations per thousand relaxations.
    pub heavy_ratio_x1000: u32,
}

/// Counters of the latest bounded prefix run.
#[derive(Clone, Copy, Debug, PartialEq, Eq, Structural, Default)]
pub struct SpecPhase1Stats {
    /// 0 for success, 1 for truncated.
    pub last_outcome: i32,
    /// The bound that the run returned.
    pub last_bound: u64,
    /// Size of the collected set.
    pub last_collected: u32,
    pub last_relaxations: u64,
}

/// Counters of the latest pivot-growth run.
#[derive(Clone, Copy, Debug, PartialEq, Eq, Structural, Default)]
pub struct SpecPhase2Stats {
    pub attempts: u32,
    /// 1 where the growth loop met its criterion, else 0.
    pub success: i32,
    pub final_k: u32,
    pub collected: u32,
    pub max_subtree: u32,
    pub roots_examined: u32,
    pub relaxations: u64,
    pub bound: u64,
}

/// Counters of the latest run of the bucket engine that pulls from the batch queue.
#[derive(Clone, Copy, Debug, PartialEq, Eq, Structural, Default)]
pub struct SpecPhase3Stats {
    pub pulls: u32,
    pub batches: u32,
    pub pushes: u32,
    pub relaxations: u64,
}

/// Counts of invariant checks made and failed.
#[derive(Clone, Copy, Debug, PartialEq, Eq, Structural, Default)]
pub struct SpecInvariantStats {
    pub checks: u64,
    pub failures: u64,
}

/// Counters of the latest boundary-chain run.
#[derive(Clone, Copy, Debug, PartialEq, Eq, Structural, Default)]
pub struct SpecBoundaryChainStats {
    pub segments: u32,
    pub attempts: u32,
    pub total_collected: u32,
    pub max_segment: u32,
    /// 1 while every bound exceeded the one before it.
    pub monotonic_ok: i32,
    pub relaxations: u64,
}

/// Counters of the latest segment descent.
#[derive(Clone, Copy, Debug, PartialEq, Eq, Structural, Default)]
pub struct SpecRecursionStats {
    pub frames: u32,
    pub total_relaxations: u64,
    pub baseline_relaxations: u64,
    pub seed_k: u32,
    pub chain_segments: u32,
    pub chain_total_collected: u32,
    pub inv_checks: u64,
    pub inv_failures: u64,
}

/// One frame of a segment descent.
#[derive(Clone, Copy, Debug, PartialEq, Eq, Structural, Default)]
pub struct SpecRecursionFrameDetail {
    pub id: u32,
    /// The distance bound at which the segment closed.
    pub bound: u64,
    pub k_used: u32,
    pub segment_size: u32,
    /// 1 where the segment was truncated, else 0.
    pub truncated: i32,
    pub relaxations: u64,
    pub pivots_examined: u32,
    pub max_subtree: u32,
    pub depth: u32,
    pub parent_id: u32,
    /// Share of the parent's segment that the frame dropped, in thousandths.
    pub pruning_ratio_x1000: u32,
    /// How far the frame's bound lies above the one it refines.
    pub bound_improvement: u64,
    /// Pivot successes per thousand attempts.
    pub pivot_success_rate_x1000: u32,
}

} // verus!

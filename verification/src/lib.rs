//! Single-source shortest-path engines over directed graphs with
//! non-negative weights, in compressed-sparse-row form.
//!
//! Weights and distances are fixed-point numbers of `graph::UNIT` ticks to
//! 1.0; `graph::INF` stands for "unreached". The reference engine, the
//! bucket engines and the batched heap engine return the shortest-path
//! distance of every vertex, with a predecessor on a shortest path; the
//! bounded prefix search, the pivot loop and the boundary chain return
//! them for the vertices they collect.

pub mod graph;
pub mod heap;
pub mod frontier;
pub mod paths;
pub mod search;
pub mod stats;
pub mod reference;
pub mod batch_queue;
pub mod scaffold;
pub mod basecase;
pub mod pivot;
pub mod subtree;
pub mod chain;
pub mod descent;
pub mod delta_choice;
pub mod delta;
pub mod reach;
pub mod autotune;
pub mod bucket_d;
pub mod khop;
pub mod exact;
pub mod options;

pub use autotune::{sssp_run_stoc_auto_adapt, sssp_run_stoc_autotune};
pub use basecase::{
    basecase_truncated, sssp_run_spec_phase1, sssp_spec_basecase_probe, BaseCaseOutcome,
    BaseCaseResult,
};
pub use batch_queue::DataStructureD;
pub use bucket_d::sssp_run_spec_phase3;
pub use chain::sssp_run_spec_boundary_chain;
pub use delta::sssp_run_stoc;
pub use descent::{sssp_run_spec_recursive, sssp_run_spec_recursive_ml};
pub use khop::{sssp_run_default, sssp_run_khop};
pub use pivot::{compute_subtree_sizes, sssp_run_spec_phase2};
pub use reference::{sssp_run_baseline, sssp_run_spec_clean};
pub use scaffold::{
    phase2_pivot_loop_placeholder, BoundaryChain, ForestNodeMeta, Phase2Attempt, Phase2Result,
    PivotCandidate, RecursionFrameStats, RecursionStatsCollector,
};
pub use stats::{
    BaselineHeapStats, SpecBoundaryChainStats, SpecHeapStats, SpecInvariantStats,
    SpecPhase1Stats, SpecPhase2Stats, SpecPhase3Stats, SpecRecursionFrameDetail,
    SpecRecursionStats, SsspBucketStats, SsspResultInfo,
};

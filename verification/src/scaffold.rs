//! Plain records for the pivot and recursion layers: candidates, forest
//! nodes, the sequence of bounds, and per-frame counters.

use vstd::prelude::*;

verus! {

/// A root that may serve as pivot, with its distance and the size
/// estimated for its subtree.
#[derive(Clone, Copy, Debug, PartialEq, Eq, Structural, Default)]
pub struct PivotCandidate {
    pub root: u32,
    pub dist: u64,
    pub subtree_est: u32,
}

/// Parent and subtree size of a node of the predecessor forest.
#[derive(Clone, Copy, Debug, PartialEq, Eq, Structural, Default)]
pub struct ForestNodeMeta {
    pub parent: u32,
    pub size: u32,
}

/// The bounds of the recursion levels, in the order they were reached.
pub struct BoundaryChain {
    pub layers: Vec<u64>,
}

impl BoundaryChain {
    /// An empty record.
    pub fn new() -> (c: Self)
        ensures
            c.layers@.len() == 0,
    {
        Self { layers: Vec::new() }
    }

    /// Appends a bound.
    pub fn push(&mut self, b: u64)
        ensures
            final(self).layers@ == old(self).layers@.push(b),
    {
        self.layers.push(b);
    }
}

/// Counters of one recursion frame.
#[derive(Clone, Copy, Debug, PartialEq, Eq, Structural, Default)]
pub struct RecursionFrameStats {
    pub level: u32,
    pub k: u32,
    pub pivots_examined: u32,
    pub forests_built: u32,
    pub relaxations: u64,
}

/// Gathers the counters of the frames of a run, in order.
pub struct RecursionStatsCollector {
    pub frames: Vec<RecursionFrameStats>,
}

impl RecursionStatsCollector {
    /// An empty record.
    pub fn new() -> (c: Self)
        ensures
            c.frames@.len() == 0,
    {
        Self { frames: Vec::new() }
    }

    /// Appends the counters of one frame.
    pub fn add(&mut self, f: RecursionFrameStats)
        ensures
            final(self).frames@ == old(self).frames@.push(f),
    {
        self.frames.push(f);
    }
}

/// What one attempt of the pivot loop produced.
pub struct Phase2Attempt<'a> {
    pub k: u32,
    pub bound: u64,
    pub collected: u32,
    pub max_subtree: u32,
    pub roots_examined: u32,
    pub relaxations: u64,
    pub dist: &'a [u64],
    pub pred: &'a [i32],
}

/// The attempts of a pivot loop and whether the last one met the criterion.
pub struct Phase2Result<'a> {
    pub success: bool,
    pub attempts: Vec<Phase2Attempt<'a>>,
}

/// Does nothing: the pivot loop itself is `sssp_run_spec_phase2`.
pub fn phase2_pivot_loop_placeholder() {
}

} // verus!

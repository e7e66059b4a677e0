use sssp_core::{
    phase2_pivot_loop_placeholder, BoundaryChain, ForestNodeMeta, Phase2Attempt, Phase2Result,
    PivotCandidate, RecursionFrameStats, RecursionStatsCollector,
};

#[test]
fn records_gather_in_order() {
    let mut chain = BoundaryChain::new();
    assert!(chain.layers.is_empty());
    chain.push(5);
    chain.push(9);
    assert_eq!(chain.layers, vec![5, 9]);
    let mut frames = RecursionStatsCollector::new();
    assert!(frames.frames.is_empty());
    frames.add(RecursionFrameStats { level: 1, k: 2, pivots_examined: 3, forests_built: 4, relaxations: 5 });
    frames.add(RecursionFrameStats::default());
    assert_eq!(frames.frames.len(), 2);
    assert_eq!(frames.frames[0].relaxations, 5);
    assert_eq!(frames.frames[1], RecursionFrameStats { level: 0, k: 0, pivots_examined: 0, forests_built: 0, relaxations: 0 });
    assert_eq!(PivotCandidate::default(), PivotCandidate { root: 0, dist: 0, subtree_est: 0 });
    assert_eq!(ForestNodeMeta::default(), ForestNodeMeta { parent: 0, size: 0 });
    let dist = [0u64, 4];
    let pred = [-1i32, 0];
    let attempt = Phase2Attempt { k: 2, bound: 9, collected: 2, max_subtree: 2, roots_examined: 1, relaxations: 1, dist: &dist, pred: &pred };
    let result = Phase2Result { success: true, attempts: vec![attempt] };
    assert!(result.success);
    assert_eq!(result.attempts[0].dist[1], 4);
    phase2_pivot_loop_placeholder();
}

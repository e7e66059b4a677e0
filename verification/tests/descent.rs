use sssp_core::descent::{
    frames_from, refine_frames, sssp_run_spec_recursive, sssp_run_spec_recursive_ml,
    RecursionConfig,
};
use sssp_core::graph::{INF, UNIT};
use sssp_core::stats::{SpecRecursionFrameDetail, SpecRecursionStats, SsspResultInfo};

fn blank_info() -> SsspResultInfo {
    SsspResultInfo { relaxations: 0, light_relaxations: 0, heavy_relaxations: 0, settled: 0, error_code: 0 }
}

#[test]
fn recursion_scaffold_smoke() {
    let off = [0u32, 1, 2, 2];
    let tgt = [1, 2];
    let wts = [1_000_000u64, 2_000_000];
    let n = 3u32;
    let mut dist = vec![0u64; 3];
    let mut pred = vec![-1i32; 3];
    let mut info = blank_info();
    let cfg = RecursionConfig::new();
    let mut stats = SpecRecursionStats::default();
    let mut frames = Vec::new();
    let rc = sssp_run_spec_recursive(n, &off, &tgt, &wts, 0, &mut dist, &mut pred, &mut info, &cfg, &mut stats, &mut frames);
    assert_eq!(rc, 0);
    assert!((dist[1] as f64 / UNIT as f64 - 1.0).abs() < 1e-6);
    assert!((dist[2] as f64 / UNIT as f64 - 3.0).abs() < 1e-6);
    assert!(stats.frames >= 1);
}

#[test]
fn frames_follow_the_segments() {
    let off = [0u32, 1, 2, 3, 4, 4];
    let tgt = [1u32, 2, 3, 4];
    let wts = [UNIT; 4];
    let mut dist = vec![0u64; 5];
    let mut pred = vec![0i32; 5];
    let mut info = blank_info();
    let cfg = RecursionConfig { chain_k: 1, seed_k: 0, ..RecursionConfig::new() };
    let mut stats = SpecRecursionStats::default();
    let mut frames = vec![SpecRecursionFrameDetail::default()];
    let rc = sssp_run_spec_recursive(5, &off, &tgt, &wts, 0, &mut dist, &mut pred, &mut info, &cfg, &mut stats, &mut frames);
    assert_eq!(rc, 0);
    assert_eq!(dist, vec![0, UNIT, 2 * UNIT, 3 * UNIT, 4 * UNIT]);
    assert_eq!(pred, vec![-1, 0, 1, 2, 3]);
    assert_eq!(stats, SpecRecursionStats { frames: 3, total_relaxations: 4, baseline_relaxations: 4, seed_k: 1, chain_segments: 3, chain_total_collected: 5, inv_checks: 6, inv_failures: 0 });
    assert_eq!(frames.len(), 3);
    assert_eq!(frames[0], SpecRecursionFrameDetail { id: 1, bound: UNIT, k_used: 1, segment_size: 1, truncated: 1, relaxations: 1, ..SpecRecursionFrameDetail::default() });
    assert_eq!(frames[1], SpecRecursionFrameDetail { id: 2, bound: 3 * UNIT, k_used: 2, segment_size: 2, truncated: 1, relaxations: 2, ..SpecRecursionFrameDetail::default() });
    assert_eq!(frames[2], SpecRecursionFrameDetail { id: 3, bound: INF, k_used: 4, segment_size: 2, truncated: 0, relaxations: 1, ..SpecRecursionFrameDetail::default() });
    assert_eq!(info.relaxations, 4);
    assert_eq!(info.settled, 5);
}

#[test]
fn descent_options_are_honoured() {
    let off = [0u32, 1, 2, 3, 4, 4];
    let tgt = [1u32, 2, 3, 4];
    let wts = [UNIT; 4];
    let mut dist = vec![0u64; 5];
    let mut pred = vec![0i32; 5];
    let mut info = SsspResultInfo { relaxations: 9, light_relaxations: 9, heavy_relaxations: 9, settled: 9, error_code: 9 };
    let mut stats = SpecRecursionStats::default();
    let mut frames = vec![SpecRecursionFrameDetail::default()];
    let cfg = RecursionConfig { no_chain: true, skip_baseline: true, ..RecursionConfig::new() };
    let rc = sssp_run_spec_recursive(5, &off, &tgt, &wts, 2, &mut dist, &mut pred, &mut info, &cfg, &mut stats, &mut frames);
    assert_eq!(rc, 0);
    assert_eq!(dist, vec![INF, INF, 0, INF, INF]);
    assert_eq!(pred, vec![-1; 5]);
    assert_eq!(info, SsspResultInfo { relaxations: 0, light_relaxations: 9, heavy_relaxations: 9, settled: 9, error_code: 9 });
    assert_eq!(stats, SpecRecursionStats { frames: 1, total_relaxations: 0, baseline_relaxations: 0, seed_k: 1024, chain_segments: 0, chain_total_collected: 0, inv_checks: 0, inv_failures: 0 });
    assert!(frames.is_empty());
    let capped = RecursionConfig { chain_k: 1, max_frames: 2, ..RecursionConfig::new() };
    let rc = sssp_run_spec_recursive(5, &off, &tgt, &wts, 0, &mut dist, &mut pred, &mut info, &capped, &mut stats, &mut frames);
    assert_eq!(rc, 0);
    assert_eq!(frames.len(), 2);
    assert_eq!(stats.chain_total_collected, 3);
    let rc = sssp_run_spec_recursive(0, &off, &tgt, &wts, 0, &mut dist, &mut pred, &mut info, &capped, &mut stats, &mut frames);
    assert_eq!(rc, -1);
    assert_eq!(frames.len(), 2);
}

#[test]
fn multi_level_adds_a_refined_frame_per_finite_bound() {
    let off = [0u32, 1, 2, 3, 4, 4];
    let tgt = [1u32, 2, 3, 4];
    let wts = [UNIT; 4];
    let mut dist = vec![0u64; 5];
    let mut pred = vec![0i32; 5];
    let mut info = blank_info();
    let cfg = RecursionConfig { chain_k: 1, ..RecursionConfig::new() };
    let mut stats = SpecRecursionStats::default();
    let mut frames = Vec::new();
    let rc = sssp_run_spec_recursive_ml(5, &off, &tgt, &wts, 0, &mut dist, &mut pred, &mut info, &cfg, &mut stats, &mut frames);
    assert_eq!(rc, 0);
    assert_eq!(dist, vec![0, UNIT, 2 * UNIT, 3 * UNIT, 4 * UNIT]);
    assert_eq!(frames.len(), 5);
    assert_eq!(stats.frames, 5);
    assert_eq!(stats.chain_segments, 3);
    assert_eq!(stats.inv_checks, 10);
    assert_eq!(stats.inv_failures, 0);
    assert_eq!(frames[1].bound_improvement, 2 * UNIT);
    assert_eq!(frames[2].bound_improvement, 0);
    assert_eq!(frames[3], SpecRecursionFrameDetail { id: 4, bound: 1_010_001, k_used: 1, segment_size: 0, truncated: 1, relaxations: 0, pivots_examined: 0, max_subtree: 0, depth: 1, parent_id: 1, pruning_ratio_x1000: 1000, bound_improvement: 10_001, pivot_success_rate_x1000: 0 });
    assert_eq!(frames[4], SpecRecursionFrameDetail { id: 5, bound: 3_030_001, k_used: 2, segment_size: 1, truncated: 1, relaxations: 0, pivots_examined: 0, max_subtree: 0, depth: 1, parent_id: 2, pruning_ratio_x1000: 500, bound_improvement: 30_001, pivot_success_rate_x1000: 0 });
    let flat = RecursionConfig { chain_k: 1, ml_depth_max: 1, ..RecursionConfig::new() };
    let rc = sssp_run_spec_recursive_ml(5, &off, &tgt, &wts, 0, &mut dist, &mut pred, &mut info, &flat, &mut stats, &mut frames);
    assert_eq!(rc, 0);
    assert_eq!(frames.len(), 3);
    assert_eq!(stats.inv_checks, 6);
}

#[test]
fn refined_frames_count_on() {
    let base = SpecRecursionFrameDetail { id: 1, bound: 200, segment_size: 3, ..SpecRecursionFrameDetail::default() };
    let open = SpecRecursionFrameDetail { id: 2, bound: INF, segment_size: 4, ..SpecRecursionFrameDetail::default() };
    let mut frames = vec![base, open];
    assert_eq!(refine_frames(&mut frames), 1);
    assert_eq!(frames.len(), 3);
    assert_eq!(frames[2].id, 3);
    assert_eq!(frames[2].bound, 203);
    assert_eq!(frames[2].segment_size, 1);
    assert_eq!(frames[2].pruning_ratio_x1000, 667);
    assert_eq!(frames[2].parent_id, 1);
    let _ = frames_from;
}

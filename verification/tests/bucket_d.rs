use sssp_core::bucket_d::{bump, choose_batch_delta, count_check, sssp_run_spec_phase3};
use sssp_core::graph::{INF, UNIT};
use sssp_core::stats::{SpecInvariantStats, SpecPhase3Stats, SsspResultInfo};

#[test]
fn phase3_basic() {
    let off = [0u32, 2, 3, 3];
    let tgt = [1, 2, 2];
    let wts = [1_000_000u64, 4_000_000, 500_000];
    let n = 3u32;
    let mut dist = vec![0u64; 3];
    let mut pred = vec![-1i32; 3];
    let mut info = SsspResultInfo { relaxations: 0, light_relaxations: 0, heavy_relaxations: 0, settled: 0, error_code: 0 };
    let mut stats = SpecPhase3Stats::default();
    let rc = sssp_run_spec_phase3(n, &off, &tgt, &wts, 0, &mut dist, &mut pred, &mut info, &mut stats, false, &mut SpecInvariantStats::default());
    assert_eq!(rc, 0);
    assert!((dist[1] as f64 / UNIT as f64 - 1.0).abs() < 1e-6);
    assert!((dist[2] as f64 / UNIT as f64 - 1.5).abs() < 1e-6);
}

#[test]
fn batch_engine_counts_its_work() {
    let off = [0u32, 2, 3, 3];
    let tgt = [1, 2, 2];
    let wts = [1_000_000u64, 4_000_000, 500_000];
    let mut dist = vec![0u64; 3];
    let mut pred = vec![0i32; 3];
    let mut info = SsspResultInfo { relaxations: 9, light_relaxations: 9, heavy_relaxations: 9, settled: 9, error_code: 9 };
    let mut stats = SpecPhase3Stats::default();
    let rc = sssp_run_spec_phase3(3, &off, &tgt, &wts, 0, &mut dist, &mut pred, &mut info, &mut stats, false, &mut SpecInvariantStats::default());
    assert_eq!(rc, 0);
    assert_eq!(dist, vec![0, 1_000_000, 1_500_000]);
    assert_eq!(pred, vec![-1, 0, 1]);
    assert_eq!(stats, SpecPhase3Stats { pulls: 4, batches: 4, pushes: 3, relaxations: 3 });
    assert_eq!(info, SsspResultInfo { relaxations: 3, light_relaxations: 0, heavy_relaxations: 0, settled: 3, error_code: 0 });
}

#[test]
fn batch_delta_is_twice_the_mean() {
    assert_eq!(choose_batch_delta(&[]), 2 * UNIT);
    assert_eq!(choose_batch_delta(&[1_000_000, 4_000_000, 500_000]), 3_666_666);
    assert_eq!(choose_batch_delta(&[0, 0]), 200);
    assert_eq!(choose_batch_delta(&[INF - 1]), INF - 1);
    let many: Vec<u64> = (0..40).map(|i| if i < 32 { 10 } else { 1_000_000 }).collect();
    assert_eq!(choose_batch_delta(&many), 200);
    assert_eq!(bump(4), 5);
    assert_eq!(bump(u64::MAX), u64::MAX);
}

#[test]
fn batch_engine_grows_its_buckets_as_far_as_a_distance_asks() {
    let off = [0u32, 33, 33, 33];
    let mut tgt = vec![1u32; 32];
    tgt.push(2);
    let mut wts = vec![1u64; 32];
    wts.push(1_000_000);
    let mut dist = vec![7u64; 3];
    let mut pred = vec![7i32; 3];
    let mut info = SsspResultInfo { relaxations: 0, light_relaxations: 0, heavy_relaxations: 0, settled: 0, error_code: 0 };
    let mut stats = SpecPhase3Stats::default();
    let rc = sssp_run_spec_phase3(3, &off, &tgt, &wts, 0, &mut dist, &mut pred, &mut info, &mut stats, false, &mut SpecInvariantStats::default());
    assert_eq!(rc, 0);
    assert_eq!(dist, vec![0, 1, 1_000_000]);
    assert_eq!(pred, vec![-1, 0, 0]);
    assert_eq!(stats, SpecPhase3Stats { pulls: 3, batches: 3, pushes: 2, relaxations: 2 });
    let kept = stats;
    let rc = sssp_run_spec_phase3(3, &off, &tgt, &wts, 9, &mut dist, &mut pred, &mut info, &mut stats, false, &mut SpecInvariantStats::default());
    assert_eq!(rc, -2);
    assert_eq!(dist, vec![0, 1, 1_000_000]);
    assert_eq!(pred, vec![-1, 0, 0]);
    assert_eq!(stats, kept);
}

#[test]
fn batch_engine_pulls_every_reached_vertex() {
    let off = [0u32, 2, 3, 4, 4, 4];
    let tgt = [1u32, 2, 3, 1];
    let wts = [3 * UNIT, UNIT, UNIT, UNIT];
    let mut dist = vec![0u64; 5];
    let mut pred = vec![0i32; 5];
    let mut info = SsspResultInfo { relaxations: 0, light_relaxations: 0, heavy_relaxations: 0, settled: 0, error_code: 0 };
    let mut stats = SpecPhase3Stats::default();
    let rc = sssp_run_spec_phase3(5, &off, &tgt, &wts, 0, &mut dist, &mut pred, &mut info, &mut stats, false, &mut SpecInvariantStats::default());
    assert_eq!(rc, 0);
    assert_eq!(dist, vec![0, 2 * UNIT, UNIT, 3 * UNIT, INF]);
    assert_eq!(pred, vec![-1, 2, 0, 1, -1]);
    assert!(stats.batches >= 1 && stats.batches <= stats.pulls);
    assert!(stats.pulls >= 4);
    assert!(stats.relaxations >= 3);
    assert_eq!(stats.pushes as u64, stats.relaxations);
    assert_eq!(info.settled, 5);
}

#[test]
fn zero_weight_cycle_is_settled() {
    let off = [0u32, 1, 2, 4];
    let tgt = [1u32, 2, 0, 1];
    let wts = [0u64, 0, 0, 5];
    let mut dist = vec![0u64; 3];
    let mut pred = vec![0i32; 3];
    let mut info = SsspResultInfo { relaxations: 0, light_relaxations: 0, heavy_relaxations: 0, settled: 0, error_code: 0 };
    let mut stats = SpecPhase3Stats::default();
    let rc = sssp_run_spec_phase3(3, &off, &tgt, &wts, 1, &mut dist, &mut pred, &mut info, &mut stats, false, &mut SpecInvariantStats::default());
    assert_eq!(rc, 0);
    assert_eq!(dist, vec![0, 0, 0]);
    assert_eq!(pred, vec![2, -1, 1]);
}

#[test]
fn pull_order_is_checked_on_request() {
    let off = [0u32, 2, 2, 2];
    let tgt = [1u32, 2];
    let wts = [3u64, 1];
    let mut dist = vec![0u64; 3];
    let mut pred = vec![0i32; 3];
    let mut info = SsspResultInfo { relaxations: 0, light_relaxations: 0, heavy_relaxations: 0, settled: 0, error_code: 0 };
    let mut stats = SpecPhase3Stats::default();
    let mut checks = SpecInvariantStats { checks: 7, failures: 7 };
    let rc = sssp_run_spec_phase3(3, &off, &tgt, &wts, 0, &mut dist, &mut pred, &mut info, &mut stats, true, &mut checks);
    assert_eq!(rc, 0);
    assert_eq!(dist, vec![0, 3, 1]);
    assert_eq!(checks, SpecInvariantStats { checks: 1, failures: 0 });
    let wts = [1u64, 3];
    let rc = sssp_run_spec_phase3(3, &off, &tgt, &wts, 0, &mut dist, &mut pred, &mut info, &mut stats, true, &mut checks);
    assert_eq!(rc, 0);
    assert_eq!(checks, SpecInvariantStats { checks: 1, failures: 1 });
    let rc = sssp_run_spec_phase3(3, &off, &tgt, &wts, 0, &mut dist, &mut pred, &mut info, &mut stats, false, &mut checks);
    assert_eq!(rc, 0);
    assert_eq!(checks, SpecInvariantStats { checks: 0, failures: 0 });
    assert_eq!(count_check(SpecInvariantStats { checks: 2, failures: 1 }, false), SpecInvariantStats { checks: 3, failures: 2 });
    assert_eq!(count_check(SpecInvariantStats { checks: u64::MAX, failures: 1 }, false), SpecInvariantStats { checks: u64::MAX, failures: 1 });
}

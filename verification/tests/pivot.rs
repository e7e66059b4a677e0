use sssp_core::graph::INF;
use sssp_core::pivot::{compute_subtree_sizes, inv_check, max_size, next_k, sssp_run_spec_phase2, PivotConfig};
use sssp_core::stats::{SpecInvariantStats, SpecPhase2Stats, SsspResultInfo};

fn blank_info() -> SsspResultInfo {
    SsspResultInfo { relaxations: 0, light_relaxations: 0, heavy_relaxations: 0, settled: 0, error_code: 0 }
}

#[test]
fn phase2_simple_star() {
    let off = [0u32, 5, 5, 5, 5, 5, 5];
    let tgt = [1, 2, 3, 4, 5];
    let wts = [1_000_000u64; 5];
    let n = 6u32;
    let mut dist = vec![0u64; 6];
    let mut pred = vec![-1i32; 6];
    let mut info = blank_info();
    let cfg = PivotConfig { k: 2, max_attempts: 4, check: false };
    let mut stats = SpecPhase2Stats::default();
    let mut checks = SpecInvariantStats::default();
    let rc = sssp_run_spec_phase2(n, &off, &tgt, &wts, 0, &mut dist, &mut pred, &mut info, &cfg, &mut stats, &mut checks);
    assert_eq!(rc, 0);
    assert!(stats.attempts >= 1);
    assert!(stats.max_subtree >= 2);
}

#[test]
fn phase2_line_graph_progress() {
    let off = [0u32, 1, 2, 3, 4, 4];
    let tgt = [1, 2, 3, 4];
    let wts = [1_000_000u64; 4];
    let n = 5u32;
    let mut dist = vec![0u64; 5];
    let mut pred = vec![-1i32; 5];
    let cfg = PivotConfig { k: 1, max_attempts: 5, check: false };
    let mut info = blank_info();
    let mut stats = SpecPhase2Stats::default();
    let mut checks = SpecInvariantStats::default();
    let rc = sssp_run_spec_phase2(n, &off, &tgt, &wts, 0, &mut dist, &mut pred, &mut info, &cfg, &mut stats, &mut checks);
    assert_eq!(rc, 0);
    assert!(stats.attempts >= 1);
    assert!(stats.final_k >= 1);
}

#[test]
fn line_succeeds_at_once_with_budget_one() {
    let off = [0u32, 1, 2, 3, 4, 4];
    let tgt = [1, 2, 3, 4];
    let wts = [1_000_000u64; 4];
    let mut dist = vec![0u64; 5];
    let mut pred = vec![0i32; 5];
    let cfg = PivotConfig { k: 1, max_attempts: 5, check: true };
    let mut info = blank_info();
    let mut stats = SpecPhase2Stats::default();
    let mut checks = SpecInvariantStats::default();
    let rc = sssp_run_spec_phase2(5, &off, &tgt, &wts, 0, &mut dist, &mut pred, &mut info, &cfg, &mut stats, &mut checks);
    assert_eq!(rc, 0);
    assert_eq!(stats, SpecPhase2Stats { attempts: 1, success: 1, final_k: 1, collected: 1, max_subtree: 1, roots_examined: 1, relaxations: 1, bound: 1_000_000 });
    assert_eq!(info.settled, 1);
    assert_eq!(info.error_code, 1);
    assert_eq!(checks, SpecInvariantStats { checks: 3, failures: 0 });
}

#[test]
fn star_doubles_the_budget_until_the_graph_is_covered() {
    let off = [0u32, 5, 5, 5, 5, 5, 5];
    let tgt = [1, 2, 3, 4, 5];
    let wts = [1_000_000u64; 5];
    let mut dist = vec![0u64; 6];
    let mut pred = vec![0i32; 6];
    let cfg = PivotConfig { k: 2, max_attempts: 4, check: false };
    let mut info = blank_info();
    let mut stats = SpecPhase2Stats::default();
    let mut checks = SpecInvariantStats { checks: 5, failures: 5 };
    let rc = sssp_run_spec_phase2(6, &off, &tgt, &wts, 0, &mut dist, &mut pred, &mut info, &cfg, &mut stats, &mut checks);
    assert_eq!(rc, 0);
    assert_eq!(stats.attempts, 3);
    assert_eq!(stats.final_k, 6);
    assert_eq!(stats.success, 1);
    assert_eq!(stats.collected, 6);
    assert_eq!(stats.max_subtree, 6);
    assert!(stats.max_subtree <= 6 && stats.max_subtree <= stats.collected);
    assert_eq!(stats.bound, INF);
    assert_eq!(stats.relaxations, 15);
    assert_eq!(dist, vec![0, 1_000_000, 1_000_000, 1_000_000, 1_000_000, 1_000_000]);
    assert_eq!(checks, SpecInvariantStats { checks: 0, failures: 0 });
    let one = PivotConfig { k: 2, max_attempts: 1, check: false };
    let rc = sssp_run_spec_phase2(6, &off, &tgt, &wts, 0, &mut dist, &mut pred, &mut info, &one, &mut stats, &mut checks);
    assert_eq!(rc, 0);
    assert_eq!((stats.attempts, stats.success, stats.final_k), (1, 0, 2));
}

#[test]
fn subtree_sizes_gather_towards_the_roots() {
    let dist = [0u64, 1, 1, 2, 9, INF];
    let pred = [-1i32, 0, 0, 1, 2, -1];
    let order = [0u32, 1, 2, 3, 4];
    let (roots, sizes) = compute_subtree_sizes(&dist, &pred, 9, &order);
    assert_eq!(roots, vec![0]);
    assert_eq!(sizes, vec![4]);
    let (roots, sizes) = compute_subtree_sizes(&dist, &pred, INF, &order);
    assert_eq!(roots, vec![0]);
    assert_eq!(sizes, vec![5]);
    let dist2 = [5u64, 1, 1, 2];
    let pred2 = [-1i32, 0, 0, 1];
    let (roots, sizes) = compute_subtree_sizes(&dist2, &pred2, 3, &[0, 1, 2, 3]);
    assert_eq!(roots, vec![1, 2]);
    assert_eq!(sizes, vec![2, 1]);
    assert_eq!(max_size(&sizes), 2);
    assert_eq!(max_size(&Vec::new()), 0);
}

#[test]
fn budget_growth_and_check_counting() {
    assert_eq!(next_k(1, 10), 2);
    assert_eq!(next_k(4, 10), 8);
    assert_eq!(next_k(5, 10), 10);
    assert_eq!(next_k(8, 10), 10);
    assert_eq!(next_k(u32::MAX, 10), 10);
    assert_eq!(next_k(0x8000_0000, u32::MAX), u32::MAX);
    let mut s = SpecInvariantStats::default();
    inv_check(&mut s, false, false);
    assert_eq!(s, SpecInvariantStats { checks: 0, failures: 0 });
    inv_check(&mut s, true, true);
    inv_check(&mut s, true, false);
    assert_eq!(s, SpecInvariantStats { checks: 2, failures: 1 });
}

#[test]
fn sizes_of_the_roots_sum_to_the_collected_set() {
    let dist = [0u64, 4, 1, 2, 3, 7, INF];
    let pred = [-1i32, 5, 0, 2, 2, -1, 0];
    let order = [0u32, 2, 3, 4, 5, 1, 6];
    let (roots, sizes) = compute_subtree_sizes(&dist, &pred, 5, &order);
    assert_eq!(roots, vec![0, 1]);
    assert_eq!(sizes, vec![4, 1]);
    assert_eq!(sizes.iter().sum::<u32>(), 5);
    let (roots, sizes) = compute_subtree_sizes(&dist, &pred, 8, &order);
    assert_eq!(roots, vec![0, 5]);
    assert_eq!(sizes, vec![4, 2]);
    assert_eq!(sizes.iter().sum::<u32>(), 6);
}

use sssp_core::basecase::{
    basecase_truncated, sssp_run_spec_phase1, sssp_spec_basecase_probe, BaseCaseOutcome,
    BaseCaseResult, BasecaseConfig,
};
use sssp_core::graph::INF;
use sssp_core::stats::{SpecPhase1Stats, SsspResultInfo};

#[test]
fn basecase_no_truncate_small_k() {
    let off = [0u32, 1, 2, 3, 3];
    let tgt = [1u32, 2, 3];
    let wts = [1_000_000u64, 1_000_000, 1_000_000];
    let n = 4u32;
    let mut dist = vec![0u64; 4];
    let mut pred = vec![-1i32; 4];
    let mut tmp = Vec::new();
    let mut relax = 0u64;
    let res = basecase_truncated(n, &off, &tgt, &wts, 0, 10, INF, &mut dist, &mut pred, &mut tmp, &mut relax);
    assert_eq!(res.outcome, 0);
    assert_eq!(res.collected, 4);
    assert_eq!(relax, 3);
}

#[test]
fn basecase_truncates_at_k_plus_one() {
    let off = [0u32, 5, 5, 5, 5, 5, 5];
    let tgt = [1, 2, 3, 4, 5];
    let wts = [1_000_000u64; 5];
    let n = 6u32;
    let mut dist = vec![0u64; 6];
    let mut pred = vec![-1i32; 6];
    let mut tmp = Vec::new();
    let mut relax = 0u64;
    let res = basecase_truncated(n, &off, &tgt, &wts, 0, 2, INF, &mut dist, &mut pred, &mut tmp, &mut relax);
    assert_eq!(res.outcome, 1);
    assert!(res.collected <= 3);
}

#[test]
fn star_with_budget_two_keeps_the_center_only() {
    let off = [0u32, 5, 5, 5, 5, 5, 5];
    let tgt = [1, 2, 3, 4, 5];
    let wts = [1_000_000u64; 5];
    let mut dist = vec![0u64; 6];
    let mut pred = vec![0i32; 6];
    let mut order = Vec::new();
    let mut relax = 0u64;
    let res = basecase_truncated(6, &off, &tgt, &wts, 0, 2, INF, &mut dist, &mut pred, &mut order, &mut relax);
    assert_eq!(res.kind(), BaseCaseOutcome::Truncated);
    assert_eq!(res.new_bound, 1_000_000);
    assert!(res.collected <= 2);
    assert_eq!(res.collected, 1);
    assert_eq!(order.len(), 3);
    assert_eq!(order[0], 0);
    assert_eq!(dist[0], 0);
    assert_eq!(pred[0], -1);
    assert_eq!(relax, 5);
    for v in 1..6usize {
        assert!(dist[v] >= res.new_bound);
        if order.contains(&(v as u32)) {
            assert_eq!(dist[v], INF);
            assert_eq!(pred[v], -1);
        } else {
            assert_eq!(dist[v], 1_000_000);
        }
    }
}

#[test]
fn bound_stops_the_search() {
    let off = [0u32, 1, 2, 3, 3];
    let tgt = [1u32, 2, 3];
    let wts = [4u64, 4, 4];
    let mut dist = vec![0u64; 4];
    let mut pred = vec![0i32; 4];
    let mut order = Vec::new();
    let mut relax = 0u64;
    let res = basecase_truncated(4, &off, &tgt, &wts, 0, 10, 8, &mut dist, &mut pred, &mut order, &mut relax);
    assert_eq!(res, BaseCaseResult { outcome: 0, new_bound: 8, collected: 3 });
    assert_eq!(res.kind(), BaseCaseOutcome::Success);
    assert_eq!(dist, vec![0, 4, 8, INF]);
    assert_eq!(pred, vec![-1, 0, 1, -1]);
    assert_eq!(order, vec![0, 1, 2]);
    assert_eq!(relax, 2);
}

#[test]
fn budget_zero_collects_nothing() {
    let off = [0u32, 1, 1];
    let tgt = [1u32];
    let wts = [3u64];
    let mut dist = vec![0u64; 2];
    let mut pred = vec![0i32; 2];
    let mut order = Vec::new();
    let mut relax = 0u64;
    let res = basecase_truncated(2, &off, &tgt, &wts, 0, 0, INF, &mut dist, &mut pred, &mut order, &mut relax);
    assert_eq!(res, BaseCaseResult { outcome: 1, new_bound: 0, collected: 0 });
    assert_eq!(dist, vec![INF, INF]);
    assert_eq!(relax, 0);
}

#[test]
fn probe_and_engine_record_the_run() {
    let off = [0u32, 1, 2, 3, 3];
    let tgt = [1u32, 2, 3];
    let wts = [2u64, 3, 4];
    let mut dist = vec![0u64; 4];
    let mut pred = vec![0i32; 4];
    let mut res = BaseCaseResult { outcome: 9, new_bound: 9, collected: 9 };
    let mut stats = SpecPhase1Stats::default();
    let rc = sssp_spec_basecase_probe(4, &off, &tgt, &wts, 0, 2, INF, &mut dist, &mut pred, &mut res, &mut stats);
    assert_eq!(rc, 0);
    assert_eq!(res, BaseCaseResult { outcome: 1, new_bound: 5, collected: 2 });
    assert_eq!(stats, SpecPhase1Stats { last_outcome: 1, last_bound: 5, last_collected: 2, last_relaxations: 2 });
    assert_eq!(dist, vec![0, 2, INF, INF]);
    let rc = sssp_spec_basecase_probe(4, &off, &tgt, &wts, 4, 2, INF, &mut dist, &mut pred, &mut res, &mut stats);
    assert_eq!(rc, -2);
    assert_eq!(res.new_bound, 5);

    let mut info = SsspResultInfo { relaxations: 0, light_relaxations: 0, heavy_relaxations: 0, settled: 0, error_code: 0 };
    let cfg = BasecaseConfig::new();
    assert_eq!(cfg, BasecaseConfig { k: 1024, bound: INF });
    let rc = sssp_run_spec_phase1(4, &off, &tgt, &wts, 0, &mut dist, &mut pred, &mut info, &cfg, &mut stats);
    assert_eq!(rc, 0);
    assert_eq!(dist, vec![0, 2, 5, 9]);
    assert_eq!(info.settled, 4);
    assert_eq!(info.error_code, 0);
    assert_eq!(stats.last_bound, INF);
    let zero = BasecaseConfig { k: 0, bound: INF };
    let rc = sssp_run_spec_phase1(4, &off, &tgt, &wts, 0, &mut dist, &mut pred, &mut info, &zero, &mut stats);
    assert_eq!(rc, 0);
    assert_eq!(info.error_code, 1);
    assert_eq!(info.settled, 1);
    assert_eq!(stats.last_bound, 2);
}

#[test]
fn relaxations_are_those_that_lead_within_the_bound() {
    let off = [0u32, 1, 2, 3, 3];
    let tgt = [1u32, 2, 3];
    let wts = [1_000_000u64; 3];
    let mut dist = vec![0u64; 4];
    let mut pred = vec![0i32; 4];
    let mut order = Vec::new();
    let mut relax = 0u64;
    let res = basecase_truncated(4, &off, &tgt, &wts, 0, 10, 1_500_000, &mut dist, &mut pred, &mut order, &mut relax);
    assert_eq!(res.outcome, 0);
    assert_eq!(res.new_bound, 1_500_000);
    assert_eq!(relax, 1);
    assert_eq!(order, vec![0, 1]);
    assert_eq!(dist, vec![0, 1_000_000, INF, INF]);
    assert_eq!(pred, vec![-1, 0, -1, -1]);
    let res = basecase_truncated(4, &off, &tgt, &wts, 0, 1, INF, &mut dist, &mut pred, &mut order, &mut relax);
    assert_eq!(res.outcome, 1);
    assert_eq!(relax, 2);
    assert_eq!(order, vec![0, 1]);
    assert_eq!(res.new_bound, 1_000_000);
    assert_eq!(dist, vec![0, INF, INF, INF]);
    assert_eq!(pred, vec![-1, -1, -1, -1]);
}

#[test]
fn truncated_run_pops_the_start_first_and_by_distance() {
    let off = [0u32, 3, 4, 4, 4, 4];
    let tgt = [1u32, 2, 3, 4];
    let wts = [2_000_000u64, 1_000_000, 5_000_000, 1_000_000];
    let mut dist = vec![0u64; 5];
    let mut pred = vec![0i32; 5];
    let mut order = Vec::new();
    let mut relax = 0u64;
    let res = basecase_truncated(5, &off, &tgt, &wts, 0, 2, 6_000_000, &mut dist, &mut pred, &mut order, &mut relax);
    assert_eq!(res.outcome, 1);
    assert_eq!(order, vec![0, 2, 1]);
    assert_eq!(res.new_bound, 2_000_000);
    assert_eq!(res.collected, 2);
    assert_eq!(relax, 3);
    assert_eq!(dist, vec![0, INF, 1_000_000, 5_000_000, INF]);
    assert_eq!(pred, vec![-1, -1, 0, 0, -1]);
    for v in 0..5 {
        assert!(dist[v] == INF || dist[v] <= 6_000_000);
        assert!(dist[v] < INF || pred[v] == -1);
    }
}

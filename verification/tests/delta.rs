use sssp_core::delta::{
    adapt_delta, adapt_params, bucket_stats, choose_delta, clamp32, decide, log2_floor,
    relax_from, sssp_run_stoc, stoc_run_internal, AdaptAction, AdaptParams, BucketState, DeltaConfig,
    DeltaRun,
    RestartEvent,
};
use sssp_core::delta_choice::{
    derive_avg_weight, heavy_target, quantile_base, scale_delta, sorted_sample, DeltaMode,
    DELTA_MAX, DELTA_MIN,
};
use sssp_core::graph::{Csr, INF, UNIT};
use sssp_core::stats::{SsspBucketStats, SsspResultInfo};

fn blank_info() -> SsspResultInfo {
    SsspResultInfo { relaxations: 0, light_relaxations: 0, heavy_relaxations: 0, settled: 0, error_code: 0 }
}

fn blank_stats() -> SsspBucketStats {
    SsspBucketStats { buckets_visited: 0, light_pass_repeats: 0, max_bucket_index: 0, restarts: 0, delta_x1000: 0, heavy_ratio_x1000: 0 }
}

#[test]
fn mean_weight_by_the_formula() {
    assert_eq!(derive_avg_weight(0, &[5, 7]), UNIT);
    assert_eq!(derive_avg_weight(2, &[5, 8, 100]), 6);
    assert_eq!(derive_avg_weight(3, &[0, 0, 0]), UNIT);
    assert_eq!(derive_avg_weight(2, &[u64::MAX - 1, u64::MAX - 1]), u64::MAX - 1);
}

#[test]
fn delta_is_scaled_and_clamped() {
    assert_eq!(scale_delta(UNIT, 3000), 3 * UNIT);
    assert_eq!(scale_delta(1, 1000), DELTA_MIN);
    assert_eq!(scale_delta(u64::MAX, u64::MAX), DELTA_MAX);
    assert_eq!(scale_delta(1_000_000, 1500), 1_500_000);
    assert_eq!(DELTA_MIN, 100);
    assert_eq!(DELTA_MAX, 1_000_000 * UNIT);
}

#[test]
fn sample_is_sorted_and_quantile_taken() {
    assert_eq!(sorted_sample(&[5, 1, 4, 1, 9], 4), vec![1, 1, 4, 5]);
    assert_eq!(sorted_sample(&[], 0), Vec::<u64>::new());
    assert_eq!(heavy_target(0), 10);
    assert_eq!(heavy_target(150), 150);
    assert_eq!(heavy_target(9999), 900);
    let w: Vec<u64> = (1..=11).map(|i| i * 1000).collect();
    assert_eq!(quantile_base(&w, 150).0, 10_000);
    assert_eq!(quantile_base(&w, 900).0, 2_000);
    assert_eq!(quantile_base(&[3], 150).0, DELTA_MIN);
    assert_eq!(quantile_base(&[], 150).0, UNIT);
}

#[test]
fn delta_choice_by_mode() {
    let mut cfg = DeltaConfig::new();
    assert_eq!(cfg.mode, DeltaMode::Average);
    assert_eq!(choose_delta(&cfg, &[UNIT, 3 * UNIT]), 6 * UNIT);
    assert_eq!(choose_delta(&cfg, &[]), 3 * UNIT);
    cfg.mult_x1000 = Some(500);
    assert_eq!(choose_delta(&cfg, &[UNIT, 3 * UNIT]), UNIT);
    cfg.mode = DeltaMode::Quantile;
    assert_eq!(choose_delta(&cfg, &[]), UNIT);
    assert_eq!(choose_delta(&cfg, &[4000, 2000, 8000]), 4000);
    cfg.mult_x1000 = None;
    assert_eq!(choose_delta(&cfg, &[4000, 2000, 8000]), 8000);
}

#[test]
fn adaptation_parameters_and_decisions() {
    assert_eq!(log2_floor(0), 0);
    assert_eq!(log2_floor(1), 0);
    assert_eq!(log2_floor(2), 1);
    assert_eq!(log2_floor(1023), 9);
    assert_eq!(log2_floor(1024), 10);
    assert_eq!(log2_floor(u32::MAX), 31);
    let cfg = DeltaConfig::new();
    assert_eq!(adapt_params(&cfg, 4), AdaptParams { trigger: 3, heavy_min_x1000: 50, heavy_max_x1000: 250 });
    assert_eq!(adapt_params(&cfg, 1 << 20).trigger, 10);
    let odd = DeltaConfig { heavy_min_x1000: 2000, heavy_max_x1000: 5, adapt_trigger: Some(7), ..cfg };
    assert_eq!(adapt_params(&odd, 4), AdaptParams { trigger: 7, heavy_min_x1000: 900, heavy_max_x1000: 910 });
    let wide = DeltaConfig { heavy_max_x1000: 990, ..cfg };
    assert_eq!(adapt_params(&wide, 4).heavy_max_x1000, 950);
    let p = AdaptParams { trigger: 3, heavy_min_x1000: 50, heavy_max_x1000: 250 };
    assert_eq!(decide(0, 0, &p), AdaptAction::Halve);
    assert_eq!(decide(100, 0, &p), AdaptAction::Halve);
    assert_eq!(decide(100, 4, &p), AdaptAction::Shrink);
    assert_eq!(decide(100, 5, &p), AdaptAction::Keep);
    assert_eq!(decide(100, 25, &p), AdaptAction::Keep);
    assert_eq!(decide(100, 26, &p), AdaptAction::Expand);
    assert_eq!(adapt_delta(1000, AdaptAction::Keep), 1000);
    assert_eq!(adapt_delta(1000, AdaptAction::Halve), 500);
    assert_eq!(adapt_delta(1000, AdaptAction::Shrink), 700);
    assert_eq!(adapt_delta(1000, AdaptAction::Expand), 1500);
    assert_eq!(adapt_delta(1, AdaptAction::Halve), 1);
    assert_eq!(adapt_delta(u64::MAX, AdaptAction::Expand), INF - 1);
    assert_eq!(clamp32(7), 7);
    assert_eq!(clamp32(1 << 40), u32::MAX);
}

#[test]
fn triangle_by_delta_stepping() {
    let off = [0u32, 2, 3, 3];
    let tgt = [1u32, 2, 2];
    let wts = [UNIT, 2 * UNIT, UNIT / 4];
    let mut dist = vec![0u64; 3];
    let mut pred = vec![0i32; 3];
    let mut info = blank_info();
    let mut stats = blank_stats();
    let mut last = 0u64;
    let mut trace = vec![RestartEvent { restart: 9, action: AdaptAction::Keep, old_delta: 0, new_delta: 0, heavy: 0, relaxations: 0 }];
    let cfg = DeltaConfig::new();
    let rc = sssp_run_stoc(3, &off, &tgt, &wts, 0, &mut dist, &mut pred, &mut info, &cfg, &mut stats, &mut last, &mut trace);
    assert_eq!(rc, 0);
    assert_eq!(dist, vec![0, UNIT, UNIT + UNIT / 4]);
    assert_eq!(pred, vec![-1, 0, 1]);
    assert_eq!(info.relaxations, info.light_relaxations + info.heavy_relaxations);
    assert_eq!(info.settled, 3);
    assert_eq!(stats.restarts, 0);
    assert_eq!(last, 3_249_999);
    assert_eq!(stats.delta_x1000, 3249);
    assert_eq!(stats.buckets_visited, 1);
    assert_eq!(stats.heavy_ratio_x1000, 0);
    assert!(trace.is_empty());
}

#[test]
fn restarts_follow_the_share_of_heavy_relaxations() {
    let n = 8u32;
    let off: Vec<u32> = (0..=n).map(|i| i.min(n - 1)).collect();
    let tgt: Vec<u32> = (1..n).collect();
    let wts = vec![UNIT; (n - 1) as usize];
    let mut dist = vec![0u64; n as usize];
    let mut pred = vec![0i32; n as usize];
    let mut info = blank_info();
    let mut stats = blank_stats();
    let mut last = 0u64;
    let mut trace = Vec::new();
    let cfg = DeltaConfig { mult_x1000: Some(500), adapt_trigger: Some(1), adapt_max_restarts: 2, trace: true, ..DeltaConfig::new() };
    let rc = sssp_run_stoc(n, &off, &tgt, &wts, 0, &mut dist, &mut pred, &mut info, &cfg, &mut stats, &mut last, &mut trace);
    assert_eq!(rc, 0);
    assert_eq!(dist, (0..n as u64).map(|i| i * UNIT).collect::<Vec<u64>>());
    assert_eq!(stats.restarts, 2);
    assert_eq!(trace.len(), 2);
    assert_eq!(trace[0], RestartEvent { restart: 1, action: AdaptAction::Expand, old_delta: 500_000, new_delta: 750_000, heavy: 1, relaxations: 1 });
    assert_eq!(trace[1].old_delta, 750_000);
    assert_eq!(trace[1].new_delta, 1_125_000);
    assert_eq!(last, 1_125_000);
    assert_eq!(info.settled, n);
    assert_eq!(info.light_relaxations, 7);
    assert_eq!(info.heavy_relaxations, 0);
    let none = DeltaConfig { adapt_max_restarts: 0, ..cfg };
    let rc = sssp_run_stoc(n, &off, &tgt, &wts, 0, &mut dist, &mut pred, &mut info, &none, &mut stats, &mut last, &mut trace);
    assert_eq!(rc, 0);
    assert_eq!(stats.restarts, 0);
    assert_eq!(last, 500_000);
    assert_eq!(info.heavy_relaxations, 7);
    assert_eq!(stats.heavy_ratio_x1000, 1000);
    assert_eq!(stats.buckets_visited, 8);
    assert_eq!(stats.max_bucket_index, 14);
    assert!(trace.is_empty());
}

#[test]
fn bucket_index_beyond_the_cap_is_an_error() {
    let off = [0u32, 1, 1];
    let tgt = [1u32];
    let wts = [2_000_000_000_000u64];
    let g = Csr { n: 2, offsets: &off, targets: &tgt, weights: &wts };
    let mut dist = vec![0u64; 2];
    let mut pred = vec![0i32; 2];
    let run = stoc_run_internal(&g, 0, 1_000_000_000, &mut dist, &mut pred, None, None);
    assert_eq!(run.status, -5);
    let run = stoc_run_internal(&g, 0, 2_000_000_000, &mut dist, &mut pred, None, None);
    assert_eq!(run.status, 0);
    assert_eq!(dist, vec![0, 2_000_000_000_000]);
    assert_eq!(run.bucket_len, 1001);
    let mut info = blank_info();
    let mut stats = blank_stats();
    let mut last = 5u64;
    let mut trace = Vec::new();
    let cfg = DeltaConfig { mult_x1000: Some(0), ..DeltaConfig::new() };
    let rc = sssp_run_stoc(2, &off, &tgt, &wts, 0, &mut dist, &mut pred, &mut info, &cfg, &mut stats, &mut last, &mut trace);
    assert_eq!(rc, -5);
    assert_eq!(info, blank_info());
    assert_eq!(stats, blank_stats());
    assert_eq!(last, 5);
    assert_eq!(dist, vec![0, 2_000_000_000_000]);
    assert_eq!(pred, vec![-1, 0]);
    assert!(trace.is_empty());
}

#[test]
fn truncated_run_stops_at_the_limit() {
    let off = [0u32, 1, 2, 3, 4, 4];
    let tgt = [1u32, 2, 3, 4];
    let wts = [UNIT; 4];
    let g = Csr { n: 5, offsets: &off, targets: &tgt, weights: &wts };
    let mut dist = vec![0u64; 5];
    let mut pred = vec![0i32; 5];
    let run = stoc_run_internal(&g, 0, UNIT / 2, &mut dist, &mut pred, Some(2), None);
    assert_eq!(run.status, 0);
    assert_eq!(run.settled, 2);
    assert_eq!((run.light, run.heavy, run.relaxations), (0, 2, 2));
    assert_eq!(dist, vec![0, UNIT, 2 * UNIT, INF, INF]);
    assert_eq!(run.action, AdaptAction::Keep);
    let p = AdaptParams { trigger: 2, heavy_min_x1000: 50, heavy_max_x1000: 250 };
    let run = stoc_run_internal(&g, 0, UNIT / 2, &mut dist, &mut pred, None, Some(p));
    assert_eq!(run.action, AdaptAction::Expand);
    assert_eq!(run.buckets_visited, 2);
    assert_eq!(run.relaxations, 2);
}

#[test]
fn committed_run_is_summed_up() {
    let run = DeltaRun { relaxations: 8, light: 6, heavy: 2, settled: 3, buckets_visited: 2, light_repeats: 3, bucket_len: 5, status: 0, action: AdaptAction::Keep };
    assert_eq!(bucket_stats(&run, 1, 2_500_000), SsspBucketStats { buckets_visited: 2, light_pass_repeats: 3, max_bucket_index: 4, restarts: 1, delta_x1000: 2500, heavy_ratio_x1000: 250 });
}

#[test]
fn a_vertex_lowered_after_it_was_settled_has_its_edges_relaxed_again() {
    let off = [0u32, 2, 3, 4, 4];
    let tgt = [1u32, 2, 3, 1];
    let wts = [3 * UNIT, UNIT, UNIT, UNIT];
    let mut dist = vec![0u64; 4];
    let mut pred = vec![0i32; 4];
    let mut info = blank_info();
    let mut stats = blank_stats();
    let mut last = 0u64;
    let mut trace = Vec::new();
    let cfg = DeltaConfig::new();
    let rc = sssp_run_stoc(4, &off, &tgt, &wts, 0, &mut dist, &mut pred, &mut info, &cfg, &mut stats, &mut last, &mut trace);
    assert_eq!(rc, 0);
    assert_eq!(last, 4_500_000);
    assert_eq!(dist, vec![0, 2 * UNIT, UNIT, 3 * UNIT]);
    assert_eq!(pred, vec![-1, 2, 0, 1]);
    assert_eq!(info.settled, 4);
    assert_eq!(info.light_relaxations, 5);
    assert_eq!(info.heavy_relaxations, 0);
    assert_eq!(info.relaxations, 5);
    assert_eq!(stats.buckets_visited, 1);
    assert!(sssp_core::exact::distances_are_exact(4, &off, &tgt, &wts, 0, &dist, &pred));
    let stale = vec![0, 2 * UNIT, UNIT, 4 * UNIT];
    assert!(!sssp_core::exact::distances_are_exact(4, &off, &tgt, &wts, 0, &stale, &pred));
    let mut bdist = vec![0u64; 4];
    let mut bpred = vec![0i32; 4];
    let mut heap = sssp_core::stats::BaselineHeapStats { pushes: 0, pops: 0, max_size: 0 };
    let rc = sssp_core::reference::sssp_run_baseline(4, &off, &tgt, &wts, 0, &mut bdist, &mut bpred, &mut info, &mut heap);
    assert_eq!(rc, 0);
    assert_eq!(bdist, dist);
    assert!(!sssp_core::exact::distances_are_exact(4, &off, &tgt, &wts, 4, &dist, &pred));
}

#[test]
fn relaxing_one_class_of_edges_lowers_and_enters_the_targets() {
    let off = [0u32, 3, 3, 3];
    let tgt = [1u32, 2, 1];
    let wts = [5u64, 50, 3];
    let g = Csr { n: 3, offsets: &off, targets: &tgt, weights: &wts };
    let fresh = || BucketState {
        buckets: vec![Vec::new()],
        in_bucket: vec![false; 3],
        settled: vec![true, false, false],
        in_set: vec![true, false, false],
        frontier: vec![0],
        taken: 0,
        light_set: vec![0],
        heavy_done: 0,
        cursor: 0,
        settled_count: 1,
        light: 0,
        heavy: 0,
    };
    let mut dist = vec![0u64, INF, INF];
    let mut pred = vec![-1i32; 3];
    let mut st = fresh();
    assert_eq!(relax_from(&g, 0, 0, true, 10, &mut dist, &mut pred, &mut st, 0, 100), (0, true));
    assert_eq!(dist, vec![0, 3, INF]);
    assert_eq!(pred, vec![-1, 0, -1]);
    assert_eq!(st.buckets, vec![vec![1u32, 1]]);
    assert_eq!(st.in_bucket, vec![false, true, false]);
    assert_eq!((st.light, st.heavy, st.settled_count), (2, 0, 1));
    assert_eq!(relax_from(&g, 0, 0, false, 10, &mut dist, &mut pred, &mut st, 0, 100), (0, false));
    assert_eq!(dist, vec![0, 3, 50]);
    assert_eq!(pred, vec![-1, 0, 0]);
    assert_eq!(st.buckets.len(), 6);
    assert_eq!(st.buckets[5], vec![2u32]);
    assert_eq!(st.buckets[0], vec![1u32, 1]);
    assert_eq!((st.light, st.heavy), (2, 1));
    assert_eq!(relax_from(&g, 0, 0, true, 10, &mut dist, &mut pred, &mut st, 0, 100), (0, false));
    assert_eq!(dist, vec![0, 3, 50]);
    assert_eq!((st.light, st.heavy), (2, 1));
    assert_eq!((st.settled.clone(), st.frontier.clone(), st.light_set.clone(), st.cursor), (vec![true, false, false], vec![0], vec![0], 0));
    let mut dist = vec![0u64, INF, INF];
    let mut pred = vec![-1i32; 3];
    let mut st = fresh();
    assert_eq!(relax_from(&g, 0, 0, false, 10, &mut dist, &mut pred, &mut st, 0, 2), (-5, false));
    assert_eq!(dist, vec![0u64, INF, INF]);
    assert_eq!(st.buckets, vec![Vec::<u32>::new()]);
    assert_eq!(st.in_bucket, vec![false; 3]);
    let mut dist = vec![0u64, 4, INF];
    let mut pred = vec![-1i32, 0, -1];
    let mut st = fresh();
    st.settled[1] = true;
    st.settled_count = 2;
    assert_eq!(relax_from(&g, 0, 0, true, 10, &mut dist, &mut pred, &mut st, 0, 100), (0, true));
    assert_eq!(dist, vec![0, 3, INF]);
    assert_eq!(st.buckets, vec![vec![1u32]]);
    assert_eq!(st.light, 1);
}

#[test]
fn triangle_with_the_long_edge_listed_first() {
    let off = [0u32, 2, 3, 3];
    let tgt = [2u32, 1, 2];
    let wts = [2 * UNIT, UNIT, UNIT / 4];
    let mut dist = vec![0u64; 3];
    let mut pred = vec![0i32; 3];
    let mut info = blank_info();
    let mut stats = blank_stats();
    let mut last = 0u64;
    let mut trace = Vec::new();
    let rc = sssp_run_stoc(3, &off, &tgt, &wts, 0, &mut dist, &mut pred, &mut info, &DeltaConfig::new(), &mut stats, &mut last, &mut trace);
    assert_eq!(rc, 0);
    assert_eq!(last, 3_249_999);
    assert_eq!(dist, vec![0, UNIT, UNIT + UNIT / 4]);
    assert_eq!(pred, vec![-1, 0, 1]);
    assert_eq!(info.settled, 3);
}

#[test]
fn four_vertices_lowered_within_one_bucket() {
    let off = [0u32, 2, 3, 4, 4];
    let tgt = [2u32, 1, 2, 3];
    let wts = [2 * UNIT, UNIT, UNIT / 4, UNIT];
    let mut dist = vec![0u64; 4];
    let mut pred = vec![0i32; 4];
    let mut info = blank_info();
    let mut stats = blank_stats();
    let mut last = 0u64;
    let mut trace = Vec::new();
    let rc = sssp_run_stoc(4, &off, &tgt, &wts, 0, &mut dist, &mut pred, &mut info, &DeltaConfig::new(), &mut stats, &mut last, &mut trace);
    assert_eq!(rc, 0);
    assert_eq!(last, 3_187_500);
    assert_eq!(stats.buckets_visited, 1);
    assert_eq!(dist, vec![0, UNIT, UNIT + UNIT / 4, 2 * UNIT + UNIT / 4]);
    assert_eq!(pred, vec![-1, 0, 1, 2]);
    assert_eq!(info.settled, 4);
    let again = (dist.clone(), pred.clone(), info, stats, last);
    let rc = sssp_run_stoc(4, &off, &tgt, &wts, 0, &mut dist, &mut pred, &mut info, &DeltaConfig::new(), &mut stats, &mut last, &mut trace);
    assert_eq!(rc, 0);
    assert_eq!((dist, pred, info, stats, last), again);
}

#[test]
fn unit_path_of_ten_by_default_options() {
    let n = 10u32;
    let off: Vec<u32> = (0..=n).map(|i| i.min(n - 1)).collect();
    let tgt: Vec<u32> = (1..n).collect();
    let wts = vec![UNIT; 9];
    let mut dist = vec![7u64; 10];
    let mut pred = vec![7i32; 10];
    let mut info = blank_info();
    let mut stats = blank_stats();
    let mut last = 0u64;
    let mut trace = Vec::new();
    let rc = sssp_run_stoc(n, &off, &tgt, &wts, 0, &mut dist, &mut pred, &mut info, &DeltaConfig::new(), &mut stats, &mut last, &mut trace);
    assert_eq!(rc, 0);
    assert_eq!(dist, (0..10u64).map(|i| i * UNIT).collect::<Vec<u64>>());
    assert_eq!(pred, (0..10i32).map(|i| i - 1).collect::<Vec<i32>>());
    assert!(stats.restarts <= 4);
    assert_eq!(info.settled, 10);
    assert_eq!(info.relaxations, info.light_relaxations + info.heavy_relaxations);
}

#[test]
fn settled_vertices_are_the_reached_ones() {
    let off = [0u32, 1, 2, 2, 3];
    let tgt = [1u32, 0, 2];
    let wts = [UNIT, UNIT, UNIT];
    let g = Csr { n: 4, offsets: &off, targets: &tgt, weights: &wts };
    let mut dist = vec![0u64; 4];
    let mut pred = vec![0i32; 4];
    let run = stoc_run_internal(&g, 0, UNIT, &mut dist, &mut pred, None, None);
    assert_eq!(run.status, 0);
    assert_eq!(dist, vec![0, UNIT, INF, INF]);
    assert_eq!(pred, vec![-1, 0, -1, -1]);
    assert_eq!(run.settled, 2);
    assert_eq!((run.light, run.heavy, run.relaxations), (1, 0, 1));
    assert_eq!((run.buckets_visited, run.bucket_len), (2, 2));
    let run = stoc_run_internal(&g, 0, UNIT, &mut dist, &mut pred, Some(0), None);
    assert_eq!((run.status, run.settled), (0, 1));
    assert_eq!(dist, vec![0, UNIT, INF, INF]);
}

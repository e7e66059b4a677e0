use sssp_core::autotune::{
    clamp_nanos, parse_autotune_set, pick_fastest, sssp_run_stoc_auto_adapt,
    sssp_run_stoc_autotune, AutotuneConfig,
};
use sssp_core::delta::DeltaConfig;
use sssp_core::graph::UNIT;
use sssp_core::stats::{SsspBucketStats, SsspResultInfo};

fn blank_info() -> SsspResultInfo {
    SsspResultInfo { relaxations: 0, light_relaxations: 0, heavy_relaxations: 0, settled: 0, error_code: 0 }
}

#[test]
fn candidates_are_the_positive_entries() {
    assert_eq!(AutotuneConfig::new().set, vec![1500, 2000, 3000, 4000, 6000]);
    assert_eq!(AutotuneConfig::new().limit, 2048);
    assert_eq!(parse_autotune_set(&vec![0, 1500, 0, 2000]), vec![1500, 2000]);
    assert_eq!(parse_autotune_set(&vec![0, 0]), vec![3000]);
    assert_eq!(parse_autotune_set(&Vec::new()), vec![3000]);
}

#[test]
fn fastest_is_the_first_least_time() {
    assert_eq!(pick_fastest(&vec![Some(5), Some(3), Some(3), Some(9)]), 1);
    assert_eq!(pick_fastest(&vec![None, Some(7), None]), 1);
    assert_eq!(pick_fastest(&vec![None, None]), 0);
    assert_eq!(pick_fastest(&Vec::new()), 0);
    assert_eq!(pick_fastest(&vec![Some(u64::MAX), Some(u64::MAX)]), 0);
    assert_eq!(clamp_nanos(12), 12);
    assert_eq!(clamp_nanos(u128::MAX), u64::MAX);
}

#[test]
fn autotuned_run_uses_a_candidate() {
    let off = [0u32, 2, 3, 3];
    let tgt = [1u32, 2, 2];
    let wts = [UNIT, 2 * UNIT, UNIT / 4];
    let mut dist = vec![0u64; 3];
    let mut pred = vec![0i32; 3];
    let mut info = blank_info();
    let mut used = 0u64;
    let cfg = AutotuneConfig { set: vec![0, 2000], limit: 2 };
    let rc = sssp_run_stoc_autotune(3, &off, &tgt, &wts, 0, &mut dist, &mut pred, &mut info, &cfg, &mut used);
    assert_eq!(rc, 0);
    assert_eq!(used, 2_166_666);
    assert_eq!(dist, vec![0, UNIT, UNIT + UNIT / 4]);
    assert_eq!(pred, vec![-1, 0, 1]);
    assert_eq!(info.settled, 3);
    let rc = sssp_run_stoc_autotune(3, &off, &tgt, &wts, 3, &mut dist, &mut pred, &mut info, &cfg, &mut used);
    assert_eq!(rc, -2);
    let all = AutotuneConfig::new();
    let rc = sssp_run_stoc_autotune(3, &off, &tgt, &wts, 0, &mut dist, &mut pred, &mut info, &all, &mut used);
    assert_eq!(rc, 0);
    assert!([1500u64, 2000, 3000, 4000, 6000].iter().any(|m| used == 1_083_333 * m / 1000));
}

#[test]
fn autotuned_adaptive_run_seeds_the_multiplier() {
    let off = [0u32, 2, 3, 3];
    let tgt = [1u32, 2, 2];
    let wts = [UNIT, 2 * UNIT, UNIT / 4];
    let mut dist = vec![0u64; 3];
    let mut pred = vec![0i32; 3];
    let mut info = blank_info();
    let mut stats = SsspBucketStats { buckets_visited: 0, light_pass_repeats: 0, max_bucket_index: 0, restarts: 0, delta_x1000: 0, heavy_ratio_x1000: 0 };
    let mut last = 0u64;
    let mut trace = Vec::new();
    let tune = AutotuneConfig { set: vec![4000], limit: 100 };
    let cfg = DeltaConfig::new();
    let rc = sssp_run_stoc_auto_adapt(3, &off, &tgt, &wts, 0, &mut dist, &mut pred, &mut info, &cfg, &tune, &mut stats, &mut last, &mut trace);
    assert_eq!(rc, 0);
    assert_eq!(last, 4_333_332);
    assert_eq!(dist, vec![0, UNIT, UNIT + UNIT / 4]);
    let fixed = DeltaConfig { mult_x1000: Some(1000), ..cfg };
    let rc = sssp_run_stoc_auto_adapt(3, &off, &tgt, &wts, 0, &mut dist, &mut pred, &mut info, &fixed, &tune, &mut stats, &mut last, &mut trace);
    assert_eq!(rc, 0);
    assert_eq!(last, 1_083_333);
}

#[test]
fn autotuned_runs_are_exact_whichever_candidate_wins() {
    let off = [0u32, 2, 3, 4, 4];
    let tgt = [2u32, 1, 2, 3];
    let wts = [2 * UNIT, UNIT, UNIT / 4, UNIT];
    let want = vec![0, UNIT, UNIT + UNIT / 4, 2 * UNIT + UNIT / 4];
    for _ in 0..3 {
        let mut dist = vec![0u64; 4];
        let mut pred = vec![0i32; 4];
        let mut info = blank_info();
        let mut used = 0u64;
        let rc = sssp_run_stoc_autotune(4, &off, &tgt, &wts, 0, &mut dist, &mut pred, &mut info, &AutotuneConfig::new(), &mut used);
        assert_eq!(rc, 0);
        assert_eq!(dist, want);
        assert_eq!(pred, vec![-1, 0, 1, 2]);
        assert_eq!(info.settled, 4);
        let mut stats = SsspBucketStats { buckets_visited: 0, light_pass_repeats: 0, max_bucket_index: 0, restarts: 0, delta_x1000: 0, heavy_ratio_x1000: 0 };
        let mut last = 0u64;
        let mut trace = Vec::new();
        let rc = sssp_run_stoc_auto_adapt(4, &off, &tgt, &wts, 0, &mut dist, &mut pred, &mut info, &DeltaConfig::new(), &AutotuneConfig::new(), &mut stats, &mut last, &mut trace);
        assert_eq!(rc, 0);
        assert_eq!(dist, want);
        assert_eq!(info.settled, 4);
    }
}

#[test]
fn autotuned_run_writes_nothing_where_a_bucket_is_beyond_the_cap() {
    let off = [0u32, 1001, 1001, 1001];
    let mut tgt = vec![1u32; 1000];
    tgt.push(2);
    let mut wts = vec![1u64; 1000];
    wts.push(2_000_000_000_000);
    let mut dist = vec![7u64; 3];
    let mut pred = vec![7i32; 3];
    let mut info = SsspResultInfo { relaxations: 9, light_relaxations: 9, heavy_relaxations: 9, settled: 9, error_code: 9 };
    let mut used = 5u64;
    let rc = sssp_run_stoc_autotune(3, &off, &tgt, &wts, 0, &mut dist, &mut pred, &mut info, &AutotuneConfig::new(), &mut used);
    assert_eq!(rc, -5);
    assert_eq!(dist, vec![7u64; 3]);
    assert_eq!(pred, vec![7i32; 3]);
    assert_eq!(info.settled, 9);
    assert_eq!(used, 5);
}

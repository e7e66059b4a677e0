use sssp_core::graph::{INF, UNIT};
use sssp_core::khop::{batch_size, sssp_run_default, sssp_run_khop, BATCH_DEFAULT, BATCH_MAX};
use sssp_core::stats::SsspResultInfo;

fn blank_info() -> SsspResultInfo {
    SsspResultInfo { relaxations: 0, light_relaxations: 0, heavy_relaxations: 0, settled: 0, error_code: 0 }
}

#[test]
fn batch_size_is_kept_within_limits() {
    assert_eq!(batch_size(0), 1);
    assert_eq!(batch_size(BATCH_DEFAULT), 32);
    assert_eq!(batch_size(5000), BATCH_MAX);
}

#[test]
fn batched_engine_corrects_what_a_batch_took_too_far() {
    let off = [0u32, 2, 3, 3];
    let tgt = [1u32, 2, 2];
    let wts = [UNIT, UNIT, 0];
    for k in [1u32, 2, 3, 32] {
        let mut dist = vec![0u64; 3];
        let mut pred = vec![0i32; 3];
        let mut info = blank_info();
        let rc = sssp_run_khop(3, &off, &tgt, &wts, 0, &mut dist, &mut pred, &mut info, k);
        assert_eq!(rc, 0);
        assert_eq!(dist, vec![0, UNIT, UNIT]);
        assert_eq!(info.settled, 3);
        assert_eq!(info.relaxations, 2);
    }
    let off = [0u32, 2, 3, 4, 4];
    let tgt = [1u32, 2, 2, 3];
    let wts = [1u64, 5, 1, 1];
    let mut dist = vec![0u64; 4];
    let mut pred = vec![0i32; 4];
    let mut info = blank_info();
    let rc = sssp_run_default(4, &off, &tgt, &wts, 0, &mut dist, &mut pred, &mut info, 8);
    assert_eq!(rc, 0);
    assert_eq!(dist, vec![0, 1, 2, 3]);
    assert_eq!(pred, vec![-1, 0, 1, 2]);
    let rc = sssp_run_default(4, &off, &tgt, &wts, 4, &mut dist, &mut pred, &mut info, 8);
    assert_eq!(rc, -2);
    let rc = sssp_run_khop(4, &off, &tgt, &wts, 3, &mut dist, &mut pred, &mut info, 8);
    assert_eq!(rc, 0);
    assert_eq!(dist, vec![INF, INF, INF, 0]);
}

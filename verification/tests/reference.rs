use sssp_core::graph::{
    check_entry, csr_is_valid, dist_add, INF, STATUS_EMPTY_GRAPH, STATUS_MALFORMED_CSR,
    STATUS_NULL_BUFFER, STATUS_OK, STATUS_SOURCE_OUT_OF_RANGE, UNIT,
};
use sssp_core::reference::{sssp_run_baseline, sssp_run_spec_clean};
use sssp_core::stats::{BaselineHeapStats, SpecHeapStats, SsspResultInfo};

fn blank_info() -> SsspResultInfo {
    SsspResultInfo { relaxations: 0, light_relaxations: 0, heavy_relaxations: 0, settled: 0, error_code: 0 }
}

fn run_reference(n: u32, off: &[u32], tgt: &[u32], wts: &[u64], source: u32) -> (i32, Vec<u64>, Vec<i32>, SsspResultInfo, BaselineHeapStats) {
    let mut dist = vec![7u64; n as usize];
    let mut pred = vec![7i32; n as usize];
    let mut info = blank_info();
    let mut heap = BaselineHeapStats { pushes: 0, pops: 0, max_size: 0 };
    let rc = sssp_run_baseline(n, off, tgt, wts, source, &mut dist, &mut pred, &mut info, &mut heap);
    (rc, dist, pred, info, heap)
}

#[test]
fn triangle_distances_and_predecessors() {
    let off = [0u32, 2, 3, 3];
    let tgt = [1u32, 2, 2];
    let wts = [UNIT, 2 * UNIT, UNIT / 4];
    let (rc, dist, pred, info, heap) = run_reference(3, &off, &tgt, &wts, 0);
    assert_eq!(rc, 0);
    assert_eq!(dist, vec![0, UNIT, UNIT + UNIT / 4]);
    assert_eq!(pred, vec![-1, 0, 1]);
    assert_eq!(info.settled, 3);
    assert_eq!(info.relaxations, 3);
    assert_eq!(info.error_code, 0);
    assert_eq!(heap.pushes, info.relaxations + 1);
    assert_eq!(heap.pops, heap.pushes);
    assert!(heap.max_size >= 1 && heap.max_size <= heap.pushes);
}

#[test]
fn path_of_unit_edges() {
    let off = [0u32, 1, 2, 3, 3];
    let tgt = [1u32, 2, 3];
    let wts = [UNIT; 3];
    let (rc, dist, pred, info, _) = run_reference(4, &off, &tgt, &wts, 0);
    assert_eq!(rc, 0);
    assert_eq!(dist, vec![0, UNIT, 2 * UNIT, 3 * UNIT]);
    assert_eq!(pred, vec![-1, 0, 1, 2]);
    assert_eq!(info.relaxations, 3);
}

#[test]
fn star_of_unit_edges() {
    let off = [0u32, 5, 5, 5, 5, 5, 5];
    let tgt = [1u32, 2, 3, 4, 5];
    let wts = [UNIT; 5];
    let (rc, dist, _, _, _) = run_reference(6, &off, &tgt, &wts, 0);
    assert_eq!(rc, 0);
    assert_eq!(dist, vec![0, UNIT, UNIT, UNIT, UNIT, UNIT]);
}

#[test]
fn unreached_vertices_stay_at_infinity() {
    let off = [0u32, 1, 1, 2];
    let tgt = [1u32, 0];
    let wts = [5u64, 1];
    let (rc, dist, pred, _, _) = run_reference(3, &off, &tgt, &wts, 0);
    assert_eq!(rc, 0);
    assert_eq!(dist, vec![0, 5, INF]);
    assert_eq!(pred, vec![-1, 0, -1]);
}

#[test]
fn self_loops_and_parallel_edges_need_no_care() {
    let off = [0u32, 3, 4];
    let tgt = [0u32, 1, 1, 1];
    let wts = [1u64, 9, 4, 0];
    let (rc, dist, pred, _, _) = run_reference(2, &off, &tgt, &wts, 0);
    assert_eq!(rc, 0);
    assert_eq!(dist, vec![0, 4]);
    assert_eq!(pred, vec![-1, 0]);
}

#[test]
fn sums_saturate_below_infinity() {
    assert_eq!(dist_add(3, 4), 7);
    assert_eq!(dist_add(INF - 1, 1), INF);
    assert_eq!(dist_add(INF - 2, 1), INF - 1);
    assert_eq!(dist_add(INF, 5), INF);
    let off = [0u32, 1, 2, 2];
    let tgt = [1u32, 2];
    let wts = [INF - 1, INF - 1];
    let (rc, dist, _, _, _) = run_reference(3, &off, &tgt, &wts, 0);
    assert_eq!(rc, 0);
    assert_eq!(dist, vec![0, INF - 1, INF]);
}

#[test]
fn each_status_has_its_input() {
    let off = [0u32, 1, 1];
    let tgt = [1u32];
    let wts = [2u64];
    assert_eq!(check_entry(0, &off, &tgt, &wts, 0, 0, 0), STATUS_EMPTY_GRAPH);
    assert_eq!(check_entry(2, &off, &tgt, &wts, 2, 2, 2), STATUS_SOURCE_OUT_OF_RANGE);
    assert_eq!(check_entry(2, &off, &tgt, &wts, 0, 1, 2), STATUS_NULL_BUFFER);
    assert_eq!(check_entry(2, &off, &tgt, &wts, 0, 2, 3), STATUS_NULL_BUFFER);
    assert_eq!(check_entry(2, &off[..2], &tgt, &wts, 0, 2, 2), STATUS_MALFORMED_CSR);
    assert_eq!(check_entry(2, &off, &tgt, &wts, 1, 2, 2), STATUS_OK);
    assert_eq!(STATUS_EMPTY_GRAPH, -1);
    assert_eq!(STATUS_SOURCE_OUT_OF_RANGE, -2);
    assert_eq!(STATUS_NULL_BUFFER, -3);
    assert_eq!(STATUS_MALFORMED_CSR, -4);
}

#[test]
fn malformed_shapes_are_told_apart() {
    assert!(csr_is_valid(2, &[0, 1, 1], &[1], &[2]));
    assert!(!csr_is_valid(2, &[1, 1, 1], &[1], &[2]));
    assert!(!csr_is_valid(2, &[0, 1, 0], &[1], &[2]));
    assert!(!csr_is_valid(2, &[0, 1, 2], &[1], &[2]));
    assert!(!csr_is_valid(2, &[0, 1, 1], &[2], &[2]));
    assert!(!csr_is_valid(2, &[0, 1, 1], &[1], &[INF]));
    assert!(!csr_is_valid(2, &[0, 1, 1], &[1], &[2, 3]));
    assert!(!csr_is_valid(3, &[0, 2, 1, 2], &[1, 1], &[2, 2]));
}

#[test]
fn nothing_is_written_on_error() {
    let off = [0u32, 1, 1];
    let tgt = [1u32];
    let wts = [2u64];
    let (rc, dist, pred, info, heap) = run_reference(2, &off, &tgt, &wts, 5);
    assert_eq!(rc, -2);
    assert_eq!(dist, vec![7, 7]);
    assert_eq!(pred, vec![7, 7]);
    assert_eq!(info, blank_info());
    assert_eq!(heap, BaselineHeapStats { pushes: 0, pops: 0, max_size: 0 });
}

#[test]
fn plain_engine_with_and_without_predecessors() {
    let off = [0u32, 2, 3, 3];
    let tgt = [1u32, 2, 2];
    let wts = [UNIT, 4 * UNIT, UNIT / 2];
    let mut dist = vec![0u64; 3];
    let mut pred: Vec<i32> = Vec::new();
    let mut info = blank_info();
    let mut heap = SpecHeapStats { pushes: 0, pops: 0, max_size: 0 };
    let rc = sssp_run_spec_clean(3, &off, &tgt, &wts, 0, &mut dist, &mut pred, &mut info, &mut heap);
    assert_eq!(rc, 0);
    assert_eq!(dist, vec![0, UNIT, UNIT + UNIT / 2]);
    assert!(pred.is_empty());
    assert_eq!(heap.pushes, 4);
    let mut pred = vec![0i32; 3];
    let rc = sssp_run_spec_clean(3, &off, &tgt, &wts, 0, &mut dist, &mut pred, &mut info, &mut heap);
    assert_eq!(rc, 0);
    assert_eq!(pred, vec![-1, 0, 1]);
    let mut short = vec![0i32; 2];
    let rc = sssp_run_spec_clean(3, &off, &tgt, &wts, 0, &mut dist, &mut short, &mut info, &mut heap);
    assert_eq!(rc, -3);
}

#[test]
fn same_inputs_give_same_outputs() {
    let off = [0u32, 3, 5, 6, 6];
    let tgt = [1u32, 2, 3, 2, 3, 3];
    let wts = [2u64, 2, 9, 1, 5, 1];
    let a = run_reference(4, &off, &tgt, &wts, 0);
    let b = run_reference(4, &off, &tgt, &wts, 0);
    assert_eq!(a.1, b.1);
    assert_eq!(a.2, b.2);
    assert_eq!(a.1, vec![0, 2, 2, 3]);
}

#[test]
fn every_reached_vertex_but_the_source_took_a_relaxation() {
    let off = [0u32, 2, 3, 4, 4, 4];
    let tgt = [1u32, 2, 3, 1];
    let wts = [3_000_000u64, 1_000_000, 1_000_000, 1_000_000];
    let mut dist = vec![0u64; 5];
    let mut pred = vec![0i32; 5];
    let mut info = blank_info();
    let mut heap = BaselineHeapStats { pushes: 0, pops: 0, max_size: 0 };
    let rc = sssp_run_baseline(5, &off, &tgt, &wts, 0, &mut dist, &mut pred, &mut info, &mut heap);
    assert_eq!(rc, 0);
    let reached = dist.iter().filter(|d| **d < INF).count() as u64;
    assert_eq!(reached, 4);
    assert_eq!(info.relaxations, 4);
    assert!(reached - 1 <= info.relaxations && info.relaxations <= 4);
    assert_eq!(heap.pushes, info.relaxations + 1);
    assert_eq!(heap.pops, heap.pushes);
}

use sssp_core::chain::{run_chain, sssp_run_spec_boundary_chain, ChainConfig};
use sssp_core::graph::{Csr, INF};
use sssp_core::scaffold::BoundaryChain;
use sssp_core::stats::{SpecBoundaryChainStats, SpecInvariantStats, SsspResultInfo};

fn blank_info() -> SsspResultInfo {
    SsspResultInfo { relaxations: 0, light_relaxations: 0, heavy_relaxations: 0, settled: 0, error_code: 0 }
}

#[test]
fn boundary_chain_line() {
    let off = [0u32, 1, 2, 3, 4, 4];
    let tgt = [1, 2, 3, 4];
    let wts = [1_000_000u64; 4];
    let n = 5u32;
    let mut dist = vec![0u64; 5];
    let mut pred = vec![-1i32; 5];
    let cfg = ChainConfig { k: 1, max_segments: 10, target_total: 0, check: false };
    let mut info = blank_info();
    let mut stats = SpecBoundaryChainStats::default();
    let mut chain = BoundaryChain::new();
    let mut checks = SpecInvariantStats::default();
    let rc = sssp_run_spec_boundary_chain(n, &off, &tgt, &wts, 0, &mut dist, &mut pred, &mut info, &cfg, &mut stats, &mut chain, &mut checks);
    assert_eq!(rc, 0);
    assert!(stats.segments >= 1);
    assert!(stats.total_collected >= 1);
}

#[test]
fn boundary_chain_star() {
    let off = [0u32, 5, 5, 5, 5, 5, 5];
    let tgt = [1, 2, 3, 4, 5];
    let wts = [1_000_000u64; 5];
    let n = 6u32;
    let mut dist = vec![0u64; 6];
    let mut pred = vec![-1i32; 6];
    let cfg = ChainConfig { k: 2, max_segments: 32, target_total: 0, check: false };
    let mut info = blank_info();
    let mut stats = SpecBoundaryChainStats::default();
    let mut chain = BoundaryChain::new();
    let mut checks = SpecInvariantStats::default();
    let rc = sssp_run_spec_boundary_chain(n, &off, &tgt, &wts, 0, &mut dist, &mut pred, &mut info, &cfg, &mut stats, &mut chain, &mut checks);
    assert_eq!(rc, 0);
    assert!(stats.total_collected >= 1);
    assert_eq!(stats.segments, 1);
    assert_eq!(stats.attempts, 2);
    assert_eq!(chain.layers, vec![1_000_000]);
}

#[test]
fn line_with_budget_one_is_covered_segment_by_segment() {
    let off = [0u32, 1, 2, 3, 4, 4];
    let tgt = [1, 2, 3, 4];
    let wts = [1_000_000u64; 4];
    let mut dist = vec![0u64; 5];
    let mut pred = vec![0i32; 5];
    let cfg = ChainConfig { k: 1, max_segments: 10, target_total: 0, check: true };
    let mut info = blank_info();
    let mut stats = SpecBoundaryChainStats::default();
    let mut chain = BoundaryChain::new();
    let mut checks = SpecInvariantStats::default();
    let rc = sssp_run_spec_boundary_chain(5, &off, &tgt, &wts, 0, &mut dist, &mut pred, &mut info, &cfg, &mut stats, &mut chain, &mut checks);
    assert_eq!(rc, 0);
    assert_eq!(stats.segments, 5);
    assert_eq!(stats.attempts, 5);
    assert_eq!(stats.total_collected, 5);
    assert_eq!(stats.max_segment, 1);
    assert_eq!(stats.monotonic_ok, 1);
    assert_eq!(stats.relaxations, 4);
    assert_eq!(chain.layers, vec![1_000_000, 2_000_000, 3_000_000, 4_000_000, INF]);
    assert_eq!(dist, vec![0, 1_000_000, 2_000_000, 3_000_000, 4_000_000]);
    assert_eq!(pred, vec![-1, 0, 1, 2, 3]);
    assert_eq!(info.settled, 5);
    assert_eq!(info.error_code, 1);
    assert_eq!(checks, SpecInvariantStats { checks: 9, failures: 0 });
}

#[test]
fn limits_end_the_chain_early() {
    let off = [0u32, 1, 2, 3, 4, 4];
    let tgt = [1, 2, 3, 4];
    let wts = [3u64; 4];
    let g = Csr { n: 5, offsets: &off, targets: &tgt, weights: &wts };
    let mut dist = vec![0u64; 5];
    let mut pred = vec![0i32; 5];
    let run = run_chain(&g, 0, &mut dist, &mut pred, 1, 2, 0, false);
    assert_eq!(run.segments.len(), 2);
    assert_eq!(run.total_collected, 2);
    assert_eq!(run.visited, vec![true, true, false, false, false]);
    assert_eq!(run.segments[1].bound, 6);
    assert_eq!(dist[..3].to_vec(), vec![0, 3, 6]);
    let run = run_chain(&g, 0, &mut dist, &mut pred, 2, 10, 3, false);
    assert_eq!(run.total_collected, 4);
    assert_eq!(run.segments.len(), 2);
    let run = run_chain(&g, 0, &mut dist, &mut pred, 1, 10, 0, true);
    assert_eq!(run.segments.iter().map(|s| s.k_used).collect::<Vec<u32>>(), vec![1, 2, 4]);
    assert_eq!(run.segments.iter().map(|s| s.size).collect::<Vec<u32>>(), vec![1, 2, 2]);
    assert_eq!(run.total_collected, 5);
}

#[test]
fn equal_distances_stall_the_chain() {
    let off = [0u32, 3, 3, 3, 3];
    let tgt = [1u32, 2, 3];
    let wts = [0u64, 0, 0];
    let g = Csr { n: 4, offsets: &off, targets: &tgt, weights: &wts };
    let mut dist = vec![0u64; 4];
    let mut pred = vec![0i32; 4];
    let run = run_chain(&g, 0, &mut dist, &mut pred, 1, 10, 0, false);
    assert_eq!(run.segments.len(), 0);
    assert_eq!(run.attempts, 1);
    assert_eq!(run.total_collected, 0);
    let run = run_chain(&g, 0, &mut dist, &mut pred, 4, 10, 0, false);
    assert_eq!(run.segments.len(), 1);
    assert_eq!(run.segments[0].bound, INF);
    assert_eq!(run.total_collected, 4);
    assert_eq!(dist, vec![0, 0, 0, 0]);
}

#[test]
fn each_segment_collects_a_band_of_distances() {
    let off = [0u32, 3, 4, 5, 6, 6];
    let tgt = [1u32, 2, 3, 4, 4, 4];
    let wts = [2u64, 2, 5, 7, 7, 3];
    let g = Csr { n: 5, offsets: &off, targets: &tgt, weights: &wts };
    let mut dist = vec![0u64; 5];
    let mut pred = vec![0i32; 5];
    let run = run_chain(&g, 0, &mut dist, &mut pred, 2, 10, 0, false);
    assert_eq!(dist, vec![0, 2, 2, 5, 8]);
    let bounds: Vec<u64> = run.segments.iter().map(|s| s.bound).collect();
    assert_eq!(bounds, vec![2, 5, INF]);
    let mut lower = 0u64;
    let mut seen = 0u32;
    for seg in &run.segments {
        let band = dist.iter().filter(|d| lower <= **d && **d < seg.bound).count() as u32;
        assert_eq!(seg.size, band);
        seen += seg.size;
        assert_eq!(seen as usize, dist.iter().filter(|d| **d < seg.bound).count());
        lower = seg.bound;
    }
    assert_eq!(run.total_collected, 5);
}

use sssp_core::bucket_d::sssp_run_spec_phase3;
use sssp_core::chain::{sssp_run_spec_boundary_chain, ChainConfig};
use sssp_core::basecase::{sssp_run_spec_phase1, BasecaseConfig};
use sssp_core::delta::{sssp_run_stoc, DeltaConfig};
use sssp_core::descent::{sssp_run_spec_recursive, RecursionConfig};
use sssp_core::graph::INF;
use sssp_core::pivot::{sssp_run_spec_phase2, PivotConfig};
use sssp_core::reference::{sssp_run_baseline, sssp_run_spec_clean};
use sssp_core::scaffold::BoundaryChain;
use sssp_core::stats::{
    BaselineHeapStats, SpecBoundaryChainStats, SpecHeapStats, SpecInvariantStats, SpecPhase1Stats,
    SpecPhase2Stats, SpecPhase3Stats, SpecRecursionStats, SsspBucketStats, SsspResultInfo,
};

struct CsrGraph {
    n: u32,
    offsets: Vec<u32>,
    targets: Vec<u32>,
    weights: Vec<u64>,
}

fn ticks(w: f32) -> u64 {
    (w as f64 * 1_000_000.0).round() as u64
}

fn path_graph(n: u32, w: f32) -> CsrGraph {
    let mut offsets = vec![0];
    let mut targets = Vec::new();
    let mut weights = Vec::new();
    for u in 0..n {
        if u + 1 < n {
            targets.push(u + 1);
            weights.push(ticks(w));
        }
        offsets.push(targets.len() as u32);
    }
    CsrGraph { n, offsets, targets, weights }
}

fn star_graph(k: u32, w: f32) -> CsrGraph {
    let n = k + 1;
    let mut offsets = vec![0];
    let mut targets = Vec::new();
    let mut weights = Vec::new();
    for leaf in 1..n {
        targets.push(leaf);
        weights.push(ticks(w));
    }
    offsets.push(targets.len() as u32);
    for _ in 1..n {
        offsets.push(targets.len() as u32);
    }
    CsrGraph { n, offsets, targets, weights }
}

fn complete_graph(n: u32, w: f32) -> CsrGraph {
    let mut offsets = vec![0];
    let mut targets = Vec::new();
    let mut weights = Vec::new();
    for u in 0..n {
        for v in 0..n {
            if u != v {
                targets.push(v);
                weights.push(ticks(w));
            }
        }
        offsets.push(targets.len() as u32);
    }
    CsrGraph { n, offsets, targets, weights }
}

fn bridge_cliques(a: u32, b: u32, w: f32) -> CsrGraph {
    let n = a + b;
    let mut offsets = vec![0];
    let mut targets = Vec::new();
    let mut weights = Vec::new();
    for u in 0..a {
        for v in 0..a {
            if u != v {
                targets.push(v);
                weights.push(ticks(w));
            }
        }
        if u == a - 1 {
            targets.push(a);
            weights.push(ticks(w));
        }
        offsets.push(targets.len() as u32);
    }
    for u in a..n {
        for v in a..n {
            if u != v {
                targets.push(v);
                weights.push(ticks(w));
            }
        }
        offsets.push(targets.len() as u32);
    }
    CsrGraph { n, offsets, targets, weights }
}

fn pseudo_random_graph(n: u32, m: u32, seed: u64, w_min: f32, w_max: f32) -> CsrGraph {
    assert!(n >= 2);
    let mut adj: Vec<Vec<(u32, f32)>> = vec![Vec::new(); n as usize];
    let mut state = seed | 1;
    let mut next_u32 = || {
        state ^= state >> 12;
        state ^= state << 25;
        state ^= state >> 27;
        state = state.wrapping_mul(2685821657736338717);
        (state >> 32) as u32
    };
    let span = w_max - w_min;
    let mut edges = 0u32;
    let target_edges = m.min(n.saturating_mul(n - 1));
    let mut attempts = 0u32;
    let attempt_limit = target_edges * 10 + 1000;
    while edges < target_edges && attempts < attempt_limit {
        attempts += 1;
        let u = next_u32() % n;
        let v = next_u32() % n;
        if u == v {
            continue;
        }
        if adj[u as usize].iter().any(|(x, _)| *x == v) {
            continue;
        }
        let w = w_min + span * ((next_u32() as f32) / (u32::MAX as f32));
        adj[u as usize].push((v, w));
        edges += 1;
    }
    for list in &mut adj {
        list.sort_by_key(|(v, _)| *v);
    }
    let mut offsets = vec![0];
    let mut targets = Vec::new();
    let mut weights = Vec::new();
    for u in 0..n as usize {
        for (v, w) in &adj[u] {
            targets.push(*v);
            weights.push(ticks(*w));
        }
        offsets.push(targets.len() as u32);
    }
    CsrGraph { n, offsets, targets, weights }
}

fn hash_dist(dist: &[u64]) -> u64 {
    let mut h: u64 = 1469598103934665603;
    for (i, &d) in dist.iter().enumerate() {
        let bits = d ^ ((i as u64).wrapping_mul(1099511628211));
        h ^= bits;
        h = h.wrapping_mul(1099511628211);
    }
    h
}

fn blank_info() -> SsspResultInfo {
    SsspResultInfo { relaxations: 0, light_relaxations: 0, heavy_relaxations: 0, settled: 0, error_code: 0 }
}

fn run_variant(which: &str, g: &CsrGraph, source: u32, k: u32) -> (Vec<u64>, Vec<i32>, SsspResultInfo) {
    let mut dist = vec![0u64; g.n as usize];
    let mut pred = vec![-1i32; g.n as usize];
    let mut info = blank_info();
    let (off, tgt, wts) = (&g.offsets[..], &g.targets[..], &g.weights[..]);
    let rc = match which {
        "baseline" => {
            let mut heap = BaselineHeapStats { pushes: 0, pops: 0, max_size: 0 };
            sssp_run_baseline(g.n, off, tgt, wts, source, &mut dist, &mut pred, &mut info, &mut heap)
        }
        "plain" => {
            let mut heap = SpecHeapStats { pushes: 0, pops: 0, max_size: 0 };
            sssp_run_spec_clean(g.n, off, tgt, wts, source, &mut dist, &mut pred, &mut info, &mut heap)
        }
        "phase1" => {
            let cfg = BasecaseConfig { k: g.n, bound: INF };
            let mut stats = SpecPhase1Stats::default();
            sssp_run_spec_phase1(g.n, off, tgt, wts, source, &mut dist, &mut pred, &mut info, &cfg, &mut stats)
        }
        "phase3" => {
            let mut stats = SpecPhase3Stats::default();
            sssp_run_spec_phase3(g.n, off, tgt, wts, source, &mut dist, &mut pred, &mut info, &mut stats, false, &mut SpecInvariantStats::default())
        }
        "chain" => {
            let cfg = ChainConfig { k, max_segments: g.n + 1, target_total: 0, check: false };
            let mut stats = SpecBoundaryChainStats::default();
            let mut chain = BoundaryChain::new();
            let mut checks = SpecInvariantStats::default();
            let rc = sssp_run_spec_boundary_chain(g.n, off, tgt, wts, source, &mut dist, &mut pred, &mut info, &cfg, &mut stats, &mut chain, &mut checks);
            assert_eq!(stats.monotonic_ok, 1);
            assert!(chain.layers.windows(2).all(|w| w[0] < w[1]));
            rc
        }
        "stoc" => {
            let cfg = DeltaConfig::new();
            let mut stats = SsspBucketStats { buckets_visited: 0, light_pass_repeats: 0, max_bucket_index: 0, restarts: 0, delta_x1000: 0, heavy_ratio_x1000: 0 };
            let mut last = 0u64;
            let mut trace = Vec::new();
            let rc = sssp_run_stoc(g.n, off, tgt, wts, source, &mut dist, &mut pred, &mut info, &cfg, &mut stats, &mut last, &mut trace);
            assert!(stats.restarts <= cfg.adapt_max_restarts);
            rc
        }
        "recursive" => {
            let cfg = RecursionConfig { chain_k: k, ..RecursionConfig::new() };
            let mut stats = SpecRecursionStats::default();
            let mut frames = Vec::new();
            sssp_run_spec_recursive(g.n, off, tgt, wts, source, &mut dist, &mut pred, &mut info, &cfg, &mut stats, &mut frames)
        }
        _ => panic!("unknown variant"),
    };
    assert_eq!(rc, 0);
    (dist, pred, info)
}

fn check_predecessors(g: &CsrGraph, source: u32, dist: &[u64], pred: &[i32]) {
    for v in 0..g.n as usize {
        if v as u32 == source || dist[v] == INF {
            assert_eq!(pred[v], -1);
        } else {
            let u = pred[v] as usize;
            let (a, b) = (g.offsets[u] as usize, g.offsets[u + 1] as usize);
            assert!((a..b).any(|e| g.targets[e] as usize == v && dist[u] + g.weights[e] == dist[v]));
        }
    }
}

fn assert_all_agree(g: &CsrGraph, k: u32, variants: &[&str]) {
    let (bdist, bpred, _) = run_variant("baseline", g, 0, k);
    check_predecessors(g, 0, &bdist, &bpred);
    let bhash = hash_dist(&bdist);
    for variant in variants {
        let (dist, pred, _) = run_variant(variant, g, 0, k);
        assert_eq!(bdist, dist);
        assert_eq!(bhash, hash_dist(&dist));
        check_predecessors(g, 0, &dist, &pred);
    }
}

fn assert_prefix_agrees(g: &CsrGraph, k: u32) {
    let (bdist, _, _) = run_variant("baseline", g, 0, k);
    let mut dist = vec![0u64; g.n as usize];
    let mut pred = vec![-1i32; g.n as usize];
    let mut info = blank_info();
    let cfg = PivotConfig { k, max_attempts: 4, check: true };
    let mut stats = SpecPhase2Stats::default();
    let mut checks = SpecInvariantStats::default();
    let rc = sssp_run_spec_phase2(g.n, &g.offsets, &g.targets, &g.weights, 0, &mut dist, &mut pred, &mut info, &cfg, &mut stats, &mut checks);
    assert_eq!(rc, 0);
    assert_eq!(checks.failures, 0);
    let below = bdist.iter().filter(|d| **d < stats.bound).count();
    assert_eq!(stats.collected as usize, below);
    assert!(stats.collected <= stats.final_k || stats.bound == INF);
    for v in 0..g.n as usize {
        if bdist[v] < stats.bound {
            assert_eq!(dist[v], bdist[v]);
        } else {
            assert!(dist[v] >= stats.bound);
        }
    }
}

#[test]
fn complete_engines_agree_on_small_graphs() {
    let graphs = vec![path_graph(10, 1.0), star_graph(12, 1.0), bridge_cliques(4, 4, 1.0), complete_graph(6, 1.0)];
    for g in &graphs {
        assert_all_agree(g, 3, &["plain", "phase1", "phase3", "stoc", "recursive"]);
        assert_prefix_agrees(g, 3);
    }
    assert_all_agree(&path_graph(10, 1.0), 3, &["chain"]);
}

#[test]
fn complete_engines_agree_on_random_graphs() {
    for seed in 1..=5u64 {
        let g = pseudo_random_graph(40, 160, seed * 7919, 0.5, 3.5);
        assert_all_agree(&g, 4, &["plain", "phase1", "phase3", "stoc", "chain", "recursive"]);
        assert_prefix_agrees(&g, 4);
    }
}

#[test]
fn bridged_cliques_distances() {
    let g = bridge_cliques(4, 4, 1.0);
    let (dist, _, _) = run_variant("baseline", &g, 0, 3);
    assert_eq!(dist, vec![0, 1_000_000, 1_000_000, 1_000_000, 2_000_000, 3_000_000, 3_000_000, 3_000_000]);
}

#[test]
fn delta_stepping_on_random_graphs_is_exact() {
    for seed in 1..=5u64 {
        let g = pseudo_random_graph(40, 160, seed * 7919, 0.5, 3.5);
        let (bdist, _, _) = run_variant("baseline", &g, 0, 4);
        let (dist, pred, info) = run_variant("stoc", &g, 0, 4);
        assert_eq!(dist, bdist);
        check_predecessors(&g, 0, &dist, &pred);
        assert_eq!(info.settled as usize, bdist.iter().filter(|d| **d < INF).count());
        assert_eq!(info.relaxations, info.light_relaxations + info.heavy_relaxations);
    }
}

//! The reference engine: eager relaxation driven by the binary min-heap,
//! with lazy deletion of stale entries.

use vstd::prelude::*;
use crate::graph::{Csr, Graph, INF, STATUS_OK, graph_of, entry_status, check_entry};
use crate::frontier::{lemma_start, lemma_complete, lemma_complete_unbounded};
use crate::search::{run_search, seed_search};
use crate::chain::{count_lt, lemma_count_lt_single};
use crate::stats::{SsspResultInfo, BaselineHeapStats, SpecHeapStats};

verus! {

/// What a completed run of a heap engine leaves: the distances, tight
/// predecessors, and counters that agree with each other; every reached
/// vertex but the source took a relaxation.
pub open spec fn heap_run_done(
    g: Graph,
    s: int,
    dist: Seq<u64>,
    pred: Seq<i32>,
    relaxations: u64,
    pushes: u64,
    pops: u64,
    max_size: u64,
) -> bool {
    &&& g.is_solution(s, dist)
    &&& g.pred_tight(s, dist, pred)
    &&& count_lt(dist, INF) <= relaxations + 1
    &&& relaxations <= g.m()
    &&& pushes == relaxations + 1
    &&& pops == pushes
    &&& 1 <= max_size <= pushes
}

/// Shortest paths from `src` by the heap-driven relaxation loop. Adds the
/// accepted relaxations to `relaxations` and returns the heap's counters.
pub fn dijkstra(
    g: &Csr,
    dist: &mut Vec<u64>,
    pred: &mut Vec<i32>,
    src: u32,
    relaxations: &mut u64,
) -> (stats: SpecHeapStats)
    requires
        g@.wf(),
        src < g.n,
        old(dist)@.len() == g@.n,
        old(pred)@.len() == g@.n,
        *old(relaxations) <= crate::search::RELAX_ROOM,
    ensures
        heap_run_done(
            g@,
            src as int,
            final(dist)@,
            final(pred)@,
            (*final(relaxations) - *old(relaxations)) as u64,
            stats.pushes,
            stats.pops,
            stats.max_size,
        ),
        *final(relaxations) >= *old(relaxations),
{
    let (mut heap, Ghost(v0)) = seed_search(g, src, dist, pred);
    let mut order: Vec<u32> = Vec::new();
    let visited: Vec<bool> = Vec::new();
    proof {
        lemma_start(g@, src as int, INF);
        lemma_count_lt_single(v0.dist, src as int);
    }
    let (truncated, Ghost(v)) = run_search(
        g,
        src,
        u64::MAX,
        INF,
        dist,
        pred,
        &visited,
        &mut heap,
        &mut order,
        relaxations,
        Ghost(v0),
    );
    proof {
        heap.lemma_size();
        lemma_complete(g@, src as int, INF, v);
        lemma_complete_unbounded(g@, src as int, v.dist);
    }
    let (pushes, pops, max_size) = heap.counters();
    SpecHeapStats { pushes, pops, max_size }
}

/// The reference engine. Returns `entry_status` of its inputs and, where
/// that is 0, leaves the shortest-path distance of every vertex in
/// `out_dist`, tight predecessors in `out_pred`, the counts of the run in
/// `info` and the heap's counters in `heap_stats`. On any other status it
/// writes nothing.
pub fn sssp_run_baseline(
    n: u32,
    offsets: &[u32],
    targets: &[u32],
    weights: &[u64],
    source: u32,
    out_dist: &mut Vec<u64>,
    out_pred: &mut Vec<i32>,
    info: &mut SsspResultInfo,
    heap_stats: &mut BaselineHeapStats,
) -> (status: i32)
    ensures
        status == entry_status(
            n,
            offsets,
            targets,
            weights,
            source,
            old(out_dist)@.len(),
            old(out_pred)@.len(),
        ),
        status != STATUS_OK ==> {
            &&& final(out_dist)@ == old(out_dist)@
            &&& final(out_pred)@ == old(out_pred)@
            &&& *final(info) == *old(info)
            &&& *final(heap_stats) == *old(heap_stats)
        },
        status == STATUS_OK ==> {
            &&& heap_run_done(
                graph_of(n, offsets, targets, weights),
                source as int,
                final(out_dist)@,
                final(out_pred)@,
                final(info).relaxations,
                final(heap_stats).pushes,
                final(heap_stats).pops,
                final(heap_stats).max_size,
            )
            &&& final(info).light_relaxations == 0
            &&& final(info).heavy_relaxations == 0
            &&& final(info).settled == n
            &&& final(info).error_code == 0
        },
{
    let status = check_entry(n, offsets, targets, weights, source, out_dist.len(), out_pred.len());
    if status != STATUS_OK {
        return status;
    }
    let g = Csr { n, offsets, targets, weights };
    let mut relaxations: u64 = 0;
    let stats = dijkstra(&g, out_dist, out_pred, source, &mut relaxations);
    *info = SsspResultInfo {
        relaxations,
        light_relaxations: 0,
        heavy_relaxations: 0,
        settled: n,
        error_code: 0,
    };
    *heap_stats = BaselineHeapStats {
        pushes: stats.pushes,
        pops: stats.pops,
        max_size: stats.max_size,
    };
    STATUS_OK
}

/// Distances only, or distances and predecessors: `out_pred` may be empty,
/// and is then left empty.
pub open spec fn clean_status(
    n: u32,
    offsets: &[u32],
    targets: &[u32],
    weights: &[u64],
    source: u32,
    dist_len: nat,
    pred_len: nat,
) -> i32 {
    entry_status(
        n,
        offsets,
        targets,
        weights,
        source,
        dist_len,
        if pred_len == 0 {
            n as nat
        } else {
            pred_len
        },
    )
}

/// The plain heap engine. As the reference engine, but predecessors are
/// optional: an empty `out_pred` stays empty. The heap's counters go to `heap_stats`.
pub fn sssp_run_spec_clean(
    n: u32,
    offsets: &[u32],
    targets: &[u32],
    weights: &[u64],
    source: u32,
    out_dist: &mut Vec<u64>,
    out_pred: &mut Vec<i32>,
    info: &mut SsspResultInfo,
    heap_stats: &mut SpecHeapStats,
) -> (status: i32)
    ensures
        status == clean_status(
            n,
            offsets,
            targets,
            weights,
            source,
            old(out_dist)@.len(),
            old(out_pred)@.len(),
        ),
        status != STATUS_OK ==> {
            &&& final(out_dist)@ == old(out_dist)@
            &&& final(out_pred)@ == old(out_pred)@
            &&& *final(info) == *old(info)
            &&& *final(heap_stats) == *old(heap_stats)
        },
        status == STATUS_OK ==> {
            &&& graph_of(n, offsets, targets, weights).is_solution(source as int, final(out_dist)@)
            &&& old(out_pred)@.len() == 0 ==> final(out_pred)@.len() == 0
            &&& old(out_pred)@.len() != 0 ==> graph_of(n, offsets, targets, weights).pred_tight(
                source as int,
                final(out_dist)@,
                final(out_pred)@,
            )
            &&& final(info).relaxations <= targets@.len()
            &&& final(heap_stats).pushes == final(info).relaxations + 1
            &&& final(heap_stats).pops == final(heap_stats).pushes
            &&& 1 <= final(heap_stats).max_size <= final(heap_stats).pushes
            &&& final(info).light_relaxations == 0
            &&& final(info).heavy_relaxations == 0
            &&& final(info).settled == n
            &&& final(info).error_code == 0
        },
{
    let want_pred: bool = out_pred.len() != 0;
    let pred_len: usize = if want_pred { out_pred.len() } else { n as usize };
    let status = check_entry(n, offsets, targets, weights, source, out_dist.len(), pred_len);
    if status != STATUS_OK {
        return status;
    }
    let g = Csr { n, offsets, targets, weights };
    let mut relaxations: u64 = 0;
    let stats = if want_pred {
        dijkstra(&g, out_dist, out_pred, source, &mut relaxations)
    } else {
        let mut scratch: Vec<i32> = vec![-1i32; n as usize];
        dijkstra(&g, out_dist, &mut scratch, source, &mut relaxations)
    };
    *info = SsspResultInfo {
        relaxations,
        light_relaxations: 0,
        heavy_relaxations: 0,
        settled: n,
        error_code: 0,
    };
    *heap_stats = stats;
    STATUS_OK
}

} // verus!

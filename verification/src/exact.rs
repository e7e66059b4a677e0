//! Telling whether an array of upper bounds holds the shortest-path
//! distances: it does where no edge can lower an entry, and only there.

use vstd::prelude::*;
use crate::graph::{Csr, Graph, INF, STATUS_OK, graph_of, entry_status, check_entry, dist_add, lemma_walk_extend};
use crate::delta::upper_ok;
use crate::bucket_d::{relaxed_all, lemma_relaxed_is_solution};

verus! {

/// Every reached vertex has its edges relaxed.
pub open spec fn all_relaxed(g: Graph, dist: Seq<u64>) -> bool {
    forall|u: int| 0 <= u < g.n && dist[u] < INF ==> #[trigger] relaxed_all(g, dist, u)
}

/// Shortest-path distances leave no edge to relax.
pub proof fn lemma_solution_is_relaxed(g: Graph, s: int, dist: Seq<u64>)
    requires
        g.wf(),
        g.is_solution(s, dist),
    ensures
        all_relaxed(g, dist),
{
    assert forall|u: int| 0 <= u < g.n && dist[u] < INF implies #[trigger] relaxed_all(
        g,
        dist,
        u,
    ) by {
        assert forall|e: int| #[trigger] g.edge_from(u, e) implies dist[g.tgt[e] as int] <= dist[u]
            + g.wts[e] by {
            let v = g.tgt[e] as int;
            assert(g.off[u + 1] <= g.off[g.n as int]);
            assert(0 <= v < g.n);
            assert(g.is_dist(s, u, dist[u]));
            assert(g.is_dist(s, v, dist[v]));
            let p = choose|p: Seq<int>| #[trigger]
                g.walk_to(s, u, p) && g.walk_len(p) == dist[u] as int;
            lemma_walk_extend(g, s, p, e);
            assert(g.walk_to(s, v, p.push(e)));
        }
    }
}

/// Upper bounds with tight predecessors are the shortest-path distances
/// exactly where every reached vertex has its edges relaxed.
pub proof fn lemma_exact_iff_relaxed(g: Graph, s: int, dist: Seq<u64>, pred: Seq<i32>)
    requires
        upper_ok(g, s, dist, pred),
    ensures
        all_relaxed(g, dist) <==> g.is_solution(s, dist),
        all_relaxed(g, dist) ==> g.pred_tight(s, dist, pred),
{
    if all_relaxed(g, dist) {
        lemma_relaxed_is_solution(g, s, dist, pred);
    }
    if g.is_solution(s, dist) {
        lemma_solution_is_relaxed(g, s, dist);
    }
}

/// Whether every reached vertex has its edges relaxed.
pub fn edges_relaxed(g: &Csr, dist: &Vec<u64>) -> (r: bool)
    requires
        g@.wf(),
        dist@.len() == g@.n,
    ensures
        r == all_relaxed(g@, dist@),
{
    let ghost gg = g@;
    let n: u32 = g.n;
    let mut u: u32 = 0;
    while u < n
        invariant
            gg == g@,
            gg.wf(),
            n == gg.n,
            u <= n,
            dist@.len() == gg.n,
            forall|x: int| 0 <= x < u && dist@[x] < INF ==> #[trigger] relaxed_all(gg, dist@, x),
        decreases n - u,
    {
        let base: u64 = dist[u as usize];
        if base < INF {
            let start: usize = g.first_edge(u);
            let end: usize = g.end_edge(u);
            let mut e: usize = start;
            while e < end
                invariant
                    gg == g@,
                    gg.wf(),
                    u < gg.n,
                    dist@.len() == gg.n,
                    base == dist@[u as int],
                    start <= e <= end,
                    start == gg.off[u as int],
                    end == gg.off[u as int + 1],
                    end <= gg.m(),
                    forall|f: int|
                        start <= f < e ==> dist@[(#[trigger] gg.tgt[f]) as int] <= base + gg.wts[f],
                decreases end - e,
            {
                let v: u32 = g.targets[e];
                let nd: u64 = dist_add(base, g.weights[e]);
                if nd < dist[v as usize] {
                    proof {
                        assert(gg.edge_from(u as int, e as int));
                        assert(!relaxed_all(gg, dist@, u as int));
                    }
                    return false;
                }
                e += 1;
            }
            proof {
                assert forall|f: int| #[trigger] gg.edge_from(u as int, f) implies dist@[gg.tgt[f] as int]
                    <= dist@[u as int] + gg.wts[f] by {
                    assert(dist@[(gg.tgt[f]) as int] <= base + gg.wts[f]);
                }
            }
        }
        u += 1;
    }
    true
}

/// Whether the output of an engine holds the shortest-path distances.
/// For arrays that an engine left with status 0 the answer is exact: every
/// such output holds upper bounds, and upper bounds are the distances
/// exactly where no edge can lower one. For any other arrays `true` still
/// means that no edge can lower an entry.
pub fn distances_are_exact(
    n: u32,
    offsets: &[u32],
    targets: &[u32],
    weights: &[u64],
    source: u32,
    dist: &Vec<u64>,
    pred: &Vec<i32>,
) -> (r: bool)
    ensures
        r ==> entry_status(n, offsets, targets, weights, source, dist@.len(), pred@.len())
            == STATUS_OK && all_relaxed(graph_of(n, offsets, targets, weights), dist@),
        upper_ok(graph_of(n, offsets, targets, weights), source as int, dist@, pred@) ==> (r
            <==> graph_of(n, offsets, targets, weights).is_solution(source as int, dist@)),
        r && upper_ok(graph_of(n, offsets, targets, weights), source as int, dist@, pred@)
            ==> graph_of(n, offsets, targets, weights).pred_tight(source as int, dist@, pred@),
{
    if check_entry(n, offsets, targets, weights, source, dist.len(), pred.len()) != STATUS_OK {
        return false;
    }
    let g = Csr { n, offsets, targets, weights };
    proof {
        if upper_ok(g@, source as int, dist@, pred@) {
            lemma_exact_iff_relaxed(g@, source as int, dist@, pred@);
        }
    }
    edges_relaxed(&g, dist)
}

} // verus!

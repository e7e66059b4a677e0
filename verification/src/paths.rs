//! Walks that pass no vertex twice. A label-correcting run keeps, for
//! every reached vertex, such a walk of the length of its entry: no run
//! ever takes a walk around a cycle for a distance.

use vstd::prelude::*;
use crate::graph::{Graph, INF, lemma_walk_extend, lemma_walk_end_in_graph};
use crate::frontier::lemma_distinct_bounded;

verus! {

/// The vertex after the first `k` edges of the walk `p` from `s`.
pub open spec fn vertex_at(g: Graph, s: int, p: Seq<int>, k: int) -> int {
    g.walk_end(s, p.take(k))
}

/// The walk `p` from `s` passes no vertex twice.
pub open spec fn simple(g: Graph, s: int, p: Seq<int>) -> bool {
    forall|i: int, j: int|
        0 <= i < j <= p.len() ==> #[trigger] vertex_at(g, s, p, i) != #[trigger] vertex_at(g, s, p, j)
}

/// Every vertex on the walk `p` has an entry no larger than the length of
/// the part of `p` that leads to it.
pub open spec fn dominated(g: Graph, s: int, dist: Seq<u64>, p: Seq<int>) -> bool {
    forall|k: int|
        0 <= k <= p.len() ==> dist[#[trigger] vertex_at(g, s, p, k)] <= g.walk_len(p.take(k))
}

/// `p` is a walk from `s` to `v` of the length of the entry of `v`, which
/// passes no vertex twice and reaches none sooner than that vertex's entry says.
pub open spec fn path_for(g: Graph, s: int, dist: Seq<u64>, v: int, p: Seq<int>) -> bool {
    &&& g.walk_to(s, v, p)
    &&& g.walk_len(p) == dist[v]
    &&& simple(g, s, p)
    &&& dominated(g, s, dist, p)
}

/// Every reached vertex has such a walk.
pub open spec fn paths_ok(g: Graph, s: int, dist: Seq<u64>) -> bool {
    forall|v: int|
        0 <= v < g.n && (#[trigger] dist[v]) < INF ==> exists|p: Seq<int>|
            #[trigger] path_for(g, s, dist, v, p)
}

/// Some walk from `s` to `v` of length `d` passes no vertex twice.
pub open spec fn simple_of_len(g: Graph, s: int, v: int, d: int) -> bool {
    exists|p: Seq<int>| #[trigger] g.walk_to(s, v, p) && g.walk_len(p) == d && simple(g, s, p)
}

/// A part of a walk from its start is a walk, and no longer than the whole.
pub proof fn lemma_walk_take(g: Graph, s: int, p: Seq<int>, k: int)
    requires
        g.wf(),
        g.is_walk(s, p),
        0 <= k <= p.len(),
    ensures
        g.is_walk(s, p.take(k)),
        0 <= g.walk_len(p.take(k)) <= g.walk_len(p),
        0 <= vertex_at(g, s, p, k) < g.n,
    decreases p.len() - k,
{
    if k == p.len() {
        assert(p.take(k) =~= p);
        crate::graph::lemma_walk_len_nonneg(g, p);
    } else {
        lemma_walk_take(g, s, p, k + 1);
        let q = p.take(k + 1);
        assert(q.drop_last() =~= p.take(k));
        crate::graph::lemma_walk_len_nonneg(g, p.take(k));
    }
    lemma_walk_end_in_graph(g, s, p.take(k));
}

/// Before a run only the source is reached, by the walk without edges.
pub proof fn lemma_paths_start(g: Graph, s: int, dist: Seq<u64>)
    requires
        g.wf(),
        0 <= s < g.n,
        dist.len() == g.n,
        forall|v: int| 0 <= v < g.n ==> dist[v] == if v == s { 0u64 } else { INF },
    ensures
        paths_ok(g, s, dist),
{
    let none = Seq::<int>::empty();
    assert forall|v: int| 0 <= v < g.n && (#[trigger] dist[v]) < INF implies exists|p: Seq<int>|
        #[trigger] path_for(g, s, dist, v, p) by {
        assert(v == s);
        assert(none.take(0) =~= none);
        assert(path_for(g, s, dist, s, none));
    }
}

/// An accepted relaxation over edge `e` of `u` keeps such a walk for every
/// reached vertex; the walk of the target is that of `u` with `e` added.
pub proof fn lemma_paths_relax(g: Graph, s: int, dist: Seq<u64>, u: int, e: int)
    requires
        g.wf(),
        dist.len() == g.n,
        paths_ok(g, s, dist),
        g.edge_from(u, e),
        dist[u] + g.wts[e] < dist[g.tgt[e] as int],
    ensures
        paths_ok(g, s, dist.update(g.tgt[e] as int, (dist[u] + g.wts[e]) as u64)),
        simple_of_len(g, s, g.tgt[e] as int, dist[u] + g.wts[e]),
{
    let v = g.tgt[e] as int;
    let nd = (dist[u] + g.wts[e]) as u64;
    let d2 = dist.update(v, nd);
    assert(g.off[u + 1] <= g.off[g.n as int]);
    assert(0 <= v < g.n);
    assert(dist[u] < INF);
    let pu = choose|p: Seq<int>| #[trigger] path_for(g, s, dist, u, p);
    let q = pu.push(e);
    lemma_walk_extend(g, s, pu, e);
    assert forall|k: int| 0 <= k <= pu.len() implies q.take(k) == pu.take(k) by {
        assert(q.take(k) =~= pu.take(k));
    }
    assert(q.take(q.len() as int) =~= q);
    assert forall|k: int| 0 <= k <= pu.len() implies vertex_at(g, s, pu, k) != v by {
        lemma_walk_take(g, s, pu, k);
        if vertex_at(g, s, pu, k) == v {
            assert(dist[vertex_at(g, s, pu, k)] <= g.walk_len(pu.take(k)));
        }
    }
    assert(simple(g, s, q)) by {
        assert forall|i: int, j: int| 0 <= i < j <= q.len() implies #[trigger] vertex_at(g, s, q, i)
            != #[trigger] vertex_at(g, s, q, j) by {
            assert(q.take(i) == pu.take(i));
            if j <= pu.len() {
                assert(q.take(j) == pu.take(j));
                assert(vertex_at(g, s, pu, i) != vertex_at(g, s, pu, j));
            } else {
                assert(vertex_at(g, s, pu, i) != v);
            }
        }
    }
    assert(dominated(g, s, d2, q)) by {
        assert forall|k: int| 0 <= k <= q.len() implies d2[#[trigger] vertex_at(g, s, q, k)]
            <= g.walk_len(q.take(k)) by {
            if k <= pu.len() {
                lemma_walk_take(g, s, pu, k);
                assert(q.take(k) == pu.take(k));
                assert(vertex_at(g, s, pu, k) != v);
                assert(dist[vertex_at(g, s, pu, k)] <= g.walk_len(pu.take(k)));
            } else {
                assert(q.take(k) == q);
            }
        }
    }
    assert(path_for(g, s, d2, v, q));
    assert forall|x: int| 0 <= x < g.n && (#[trigger] d2[x]) < INF implies exists|p: Seq<int>|
        #[trigger] path_for(g, s, d2, x, p) by {
        if x != v {
            assert(dist[x] < INF);
            let px = choose|p: Seq<int>| #[trigger] path_for(g, s, dist, x, p);
            assert(dominated(g, s, d2, px)) by {
                assert forall|k: int| 0 <= k <= px.len() implies d2[#[trigger] vertex_at(g, s, px, k)]
                    <= g.walk_len(px.take(k)) by {
                    lemma_walk_take(g, s, px, k);
                    assert(dist[vertex_at(g, s, px, k)] <= g.walk_len(px.take(k)));
                }
            }
            assert(path_for(g, s, d2, x, px));
        }
    }
}

/// A walk that passes no vertex twice has fewer edges than the graph has
/// vertices, and is no longer than so many edges of the largest weight.
pub proof fn lemma_simple_bound(g: Graph, s: int, p: Seq<int>, heaviest: u64)
    requires
        g.wf(),
        g.is_walk(s, p),
        simple(g, s, p),
        forall|e: int| 0 <= e < g.wts.len() ==> (#[trigger] g.wts[e]) <= heaviest,
    ensures
        p.len() < g.n,
        g.walk_len(p) <= p.len() * heaviest,
        g.walk_len(p) <= (g.n - 1) * heaviest,
{
    let stops = Seq::new((p.len() + 1) as nat, |k: int| vertex_at(g, s, p, k) as u32);
    assert forall|k: int| 0 <= k < stops.len() implies (#[trigger] stops[k]) < g.n by {
        lemma_walk_take(g, s, p, k);
    }
    assert(stops.no_duplicates()) by {
        assert forall|i: int, j: int| 0 <= i < stops.len() && 0 <= j < stops.len() && i != j implies stops[i]
            != stops[j] by {
            lemma_walk_take(g, s, p, i);
            lemma_walk_take(g, s, p, j);
            if i < j {
                assert(vertex_at(g, s, p, i) != vertex_at(g, s, p, j));
            } else {
                assert(vertex_at(g, s, p, j) != vertex_at(g, s, p, i));
            }
        }
    }
    lemma_distinct_bounded(stops, g.n);
    lemma_len_by_edges(g, s, p, heaviest);
    assert(p.len() * heaviest <= (g.n - 1) * heaviest) by (nonlinear_arith)
        requires
            0 <= p.len() <= g.n - 1,
            0 <= heaviest,
    ;
}

/// A walk is no longer than its edges, each taken at the largest weight.
pub proof fn lemma_len_by_edges(g: Graph, s: int, p: Seq<int>, heaviest: u64)
    requires
        g.wf(),
        g.is_walk(s, p),
        forall|e: int| 0 <= e < g.wts.len() ==> (#[trigger] g.wts[e]) <= heaviest,
    ensures
        g.walk_len(p) <= p.len() * heaviest,
    decreases p.len(),
{
    if p.len() > 0 {
        let q = p.drop_last();
        lemma_len_by_edges(g, s, q, heaviest);
        let u = g.walk_end(s, q);
        assert(g.edge_from(u, p.last()));
        assert(g.off[u + 1] <= g.off[g.n as int]);
        assert(g.wts[p.last()] <= heaviest);
        assert(p.len() * heaviest == q.len() * heaviest + heaviest) by (nonlinear_arith)
            requires
                p.len() == q.len() + 1,
        ;
    }
}

} // verus!

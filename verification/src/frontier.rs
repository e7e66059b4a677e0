//! The state of a heap-driven search in mathematical form, the invariant it
//! keeps, and the lemmas by which each step of the search keeps it.

use vstd::prelude::*;
use vstd::multiset::Multiset;
use crate::graph::{Graph, INF, lemma_walk_extend, lemma_walk_len_nonneg, lemma_walk_end_in_graph};
use crate::heap::HeapItem;

verus! {

/// A search in progress, as the proofs see it.
pub struct SearchView {
    /// Tentative distances.
    pub dist: Seq<u64>,
    /// Predecessors, -1 for none.
    pub pred: Seq<i32>,
    /// For each reached vertex a walk from the source of its tentative length.
    pub walks: Seq<Seq<int>>,
    /// Vertices whose distance is final and whose edges have been relaxed.
    pub done: Set<int>,
    /// Vertices that were done before the search began.
    pub base: Set<int>,
    /// The heap's entries.
    pub heap: Multiset<HeapItem>,
    /// Vertices popped by this search, in order.
    pub order: Seq<u32>,
    /// The vertex whose edges are being relaxed, or -1.
    pub active: int,
    /// Edges of `active` below this index have been relaxed.
    pub upto: int,
    /// The distance of the latest vertex popped.
    pub floor: u64,
}

/// The heap entry of vertex `v` at distance `d`.
pub open spec fn entry(d: u64, v: int) -> HeapItem {
    HeapItem { dist: d, node: v as u32 }
}

/// Edge `e` from `u` cannot lower its target's distance within `bound`.
pub open spec fn relaxed(g: Graph, dist: Seq<u64>, bound: u64, u: int, e: int) -> bool {
    dist[g.tgt[e] as int] <= dist[u] + g.wts[e] || dist[u] + g.wts[e] > bound
}

/// The arrays have one slot per vertex, the source is at 0, and the active
/// vertex, where there is one, is the last settled.
pub open spec fn inv_shape(g: Graph, s: int, v: SearchView) -> bool {
    &&& g.wf()
    &&& 0 <= s < g.n
    &&& v.dist.len() == g.n
    &&& v.pred.len() == g.n
    &&& v.walks.len() == g.n
    &&& v.dist[s] == 0
    &&& v.done.finite()
    &&& -1 <= v.active < g.n
    &&& v.active >= 0 ==> {
        &&& v.done.contains(v.active)
        &&& g.off[v.active] <= v.upto <= g.off[v.active + 1]
        &&& v.floor == v.dist[v.active]
        &&& v.order.len() > 0
        &&& v.order.last() == v.active
    }
}

/// Every finite distance is the length of the walk kept for its vertex, and within the bound.
pub open spec fn inv_walks(g: Graph, s: int, bound: u64, v: SearchView) -> bool {
    forall|x: int|
        0 <= x < g.n && (#[trigger] v.dist[x]) < INF ==> {
            &&& g.walk_to(s, x, v.walks[x])
            &&& g.walk_len(v.walks[x]) == v.dist[x]
            &&& v.dist[x] <= bound
        }
}

/// Every done vertex holds its shortest-path distance, which is no more than the floor.
pub open spec fn inv_done(g: Graph, s: int, v: SearchView) -> bool {
    forall|u: int| #[trigger]
        v.done.contains(u) ==> {
            &&& 0 <= u < g.n
            &&& v.dist[u] < INF
            &&& v.dist[u] <= v.floor
            &&& g.no_walk_below(s, u, v.dist[u] as int)
        }
}

/// The edges of done vertices are relaxed, but those of the active vertex from `upto` on.
pub open spec fn inv_relaxed(g: Graph, bound: u64, v: SearchView) -> bool {
    forall|u: int, e: int|
        v.done.contains(u) && #[trigger] g.edge_from(u, e) && (u != v.active || e < v.upto)
            ==> relaxed(g, v.dist, bound, u, e)
}

/// Every heap entry occurs once, names a vertex, and is neither below
/// the vertex's distance nor below the floor; an entry of a done vertex is stale.
pub open spec fn inv_heap(g: Graph, v: SearchView) -> bool {
    forall|x: HeapItem| #[trigger]
        v.heap.count(x) > 0 ==> {
            &&& x.node < g.n
            &&& x.dist < INF
            &&& v.dist[x.node as int] <= x.dist
            &&& v.floor <= x.dist
            &&& v.heap.count(x) == 1
            &&& v.done.contains(x.node as int) ==> v.dist[x.node as int] < x.dist
        }
}

/// Every reached vertex that is not done has its current entry in the heap.
pub open spec fn inv_frontier(g: Graph, v: SearchView) -> bool {
    forall|x: int|
        0 <= x < g.n && !v.done.contains(x) && (#[trigger] v.dist[x]) < INF ==> v.heap.count(
            entry(v.dist[x], x),
        ) > 0
}

/// Every reached vertex but the source names a predecessor at its final
/// distance, with an edge that gives the vertex's own.
pub open spec fn inv_pred(g: Graph, s: int, v: SearchView) -> bool {
    &&& v.pred[s] == -1
    &&& forall|x: int|
        0 <= x < g.n && v.dist[x] == INF ==> (#[trigger] v.pred[x]) == -1
    &&& forall|x: int|
        0 <= x < g.n && x != s && v.dist[x] < INF ==> {
            &&& g.tight_at(v.dist, (#[trigger] v.pred[x]) as int, x)
            &&& g.no_walk_below(s, v.pred[x] as int, v.dist[v.pred[x] as int] as int)
        }
}

/// The order lists, once each and by distance, the vertices done since the search began.
pub open spec fn inv_order(g: Graph, v: SearchView) -> bool {
    &&& v.order.no_duplicates()
    &&& forall|i: int|
        0 <= i < v.order.len() ==> {
            &&& (#[trigger] v.order[i]) < g.n
            &&& v.done.contains(v.order[i] as int)
            &&& !v.base.contains(v.order[i] as int)
        }
    &&& forall|u: int|
        v.done.contains(u) && !v.base.contains(u) ==> 0 <= u < g.n && #[trigger] v.order.contains(
            u as u32,
        )
    &&& forall|u: int| #[trigger] v.base.contains(u) ==> v.done.contains(u)
    &&& forall|i: int, j: int|
        0 <= i <= j < v.order.len() ==> v.dist[(#[trigger] v.order[i]) as int] <= v.dist[(
        #[trigger] v.order[j]) as int]
}

/// What every step of a search keeps.
pub open spec fn inv(g: Graph, s: int, bound: u64, v: SearchView) -> bool {
    &&& inv_shape(g, s, v)
    &&& inv_walks(g, s, bound, v)
    &&& inv_done(g, s, v)
    &&& inv_relaxed(g, bound, v)
    &&& inv_heap(g, v)
    &&& inv_frontier(g, v)
    &&& inv_pred(g, s, v)
    &&& inv_order(g, v)
}

/// The least length that a walk can have once it leaves the vertices within `bound`.
pub open spec fn beyond(bound: u64) -> int {
    if bound < INF {
        bound + 1
    } else {
        INF as int
    }
}

/// A walk either ends at a done vertex whose distance it does not beat,
/// or is at least as long as `d0`, where no heap entry is below `d0`.
pub proof fn lemma_exit(g: Graph, s: int, bound: u64, v: SearchView, d0: int, p: Seq<int>)
    requires
        inv(g, s, bound, v),
        v.active == -1,
        d0 <= beyond(bound),
        forall|x: HeapItem| #[trigger] v.heap.count(x) > 0 ==> d0 <= x.dist,
        g.is_walk(s, p),
    ensures
        (v.done.contains(g.walk_end(s, p)) && v.dist[g.walk_end(s, p)] <= g.walk_len(p)) || d0
            <= g.walk_len(p),
    decreases p.len(),
{
    if p.len() == 0 {
        if !v.done.contains(s) {
            assert(v.dist[s] < INF);
            assert(v.heap.count(entry(v.dist[s], s)) > 0);
        }
    } else {
        let q = p.drop_last();
        let e = p.last();
        let u = g.walk_end(s, q);
        let y = g.tgt[e] as int;
        lemma_exit(g, s, bound, v, d0, q);
        lemma_walk_end_in_graph(g, s, p);
        lemma_walk_len_nonneg(g, q);
        if d0 <= g.walk_len(q) {
        } else {
            assert(v.done.contains(u));
            assert(g.edge_from(u, e));
            assert(relaxed(g, v.dist, bound, u, e));
            if v.dist[u] + g.wts[e] > bound {
            } else {
                if !v.done.contains(y) {
                    if v.dist[y] < INF {
                        assert(v.heap.count(entry(v.dist[y], y)) > 0);
                    }
                }
            }
        }
    }
}

/// The view after a pop found a stale entry, or one of a vertex already done.
pub open spec fn after_discard(v: SearchView, x: HeapItem) -> SearchView {
    SearchView { heap: v.heap.remove(x), ..v }
}

/// Discarding a stale entry keeps the invariant.
pub proof fn lemma_discard(g: Graph, s: int, bound: u64, v: SearchView, x: HeapItem)
    requires
        inv(g, s, bound, v),
        v.active == -1,
        v.heap.count(x) > 0,
        x.dist > v.dist[x.node as int] || v.done.contains(x.node as int),
    ensures
        inv(g, s, bound, after_discard(v, x)),
{
    broadcast use vstd::multiset::group_multiset_axioms;

    let w = after_discard(v, x);
    assert forall|y: HeapItem| #[trigger] w.heap.count(y) > 0 implies v.heap.count(y) > 0 by {}
    assert(inv_heap(g, w));
    assert forall|y: int|
        0 <= y < g.n && !w.done.contains(y) && (#[trigger] w.dist[y]) < INF implies w.heap.count(
        entry(w.dist[y], y),
    ) > 0 by {
        assert(v.heap.count(entry(v.dist[y], y)) > 0);
        assert(entry(v.dist[y], y) != x);
    }
}

/// The view after a pop found the current entry of a vertex not yet done:
/// the vertex is done, and none of its edges is relaxed yet.
pub open spec fn after_settle(g: Graph, v: SearchView, x: HeapItem) -> SearchView {
    SearchView {
        heap: v.heap.remove(x),
        done: v.done.insert(x.node as int),
        order: v.order.push(x.node),
        active: x.node as int,
        upto: g.off[x.node as int] as int,
        floor: x.dist,
        ..v
    }
}

/// The nearest entry, where it is current, is at its vertex's shortest-path
/// distance: settling the vertex keeps the invariant, and no vertex that
/// is not done is nearer.
pub proof fn lemma_settle(g: Graph, s: int, bound: u64, v: SearchView, x: HeapItem)
    requires
        inv(g, s, bound, v),
        v.active == -1,
        v.heap.count(x) > 0,
        forall|y: HeapItem| #[trigger] v.heap.count(y) > 0 ==> x.dist <= y.dist,
        x.dist <= v.dist[x.node as int],
    ensures
        inv(g, s, bound, after_settle(g, v, x)),
        !v.done.contains(x.node as int),
        x.dist == v.dist[x.node as int],
        x.dist < INF,
        x.dist <= bound,
        forall|p: Seq<int>, y: int|
            !v.done.contains(y) && #[trigger] g.walk_to(s, y, p) ==> x.dist <= g.walk_len(p),
{
    broadcast use vstd::multiset::group_multiset_axioms;

    let w = after_settle(g, v, x);
    let u = x.node as int;
    let d0 = x.dist;
    assert(v.dist[u] == d0);
    assert(!v.done.contains(u));
    assert(d0 < INF);
    assert(d0 <= bound);
    assert forall|p: Seq<int>, y: int|
        !v.done.contains(y) && #[trigger] g.walk_to(s, y, p) implies d0 <= g.walk_len(p) by {
        lemma_exit(g, s, bound, v, d0 as int, p);
    }
    assert(g.no_walk_below(s, u, d0 as int));
    assert(g.off[u] <= g.off[u + 1]);
    assert(inv_shape(g, s, w));
    assert(inv_walks(g, s, bound, w));
    assert(inv_done(g, s, w)) by {
        assert forall|z: int| #[trigger] w.done.contains(z) implies {
            &&& 0 <= z < g.n
            &&& w.dist[z] < INF
            &&& w.dist[z] <= w.floor
            &&& g.no_walk_below(s, z, w.dist[z] as int)
        } by {
            if z != u {
                assert(v.done.contains(z));
            }
        }
    }
    assert(inv_relaxed(g, bound, w)) by {
        assert forall|z: int, e: int|
            w.done.contains(z) && #[trigger] g.edge_from(z, e) && (z != w.active || e
                < w.upto) implies relaxed(g, w.dist, bound, z, e) by {
            if z != u {
                assert(v.done.contains(z));
            }
        }
    }
    assert(inv_heap(g, w)) by {
        assert forall|y: HeapItem| #[trigger] w.heap.count(y) > 0 implies {
            &&& y.node < g.n
            &&& y.dist < INF
            &&& w.dist[y.node as int] <= y.dist
            &&& w.floor <= y.dist
            &&& w.heap.count(y) == 1
            &&& w.done.contains(y.node as int) ==> w.dist[y.node as int] < y.dist
        } by {
            assert(v.heap.count(y) > 0);
            if y == x {
                assert(v.heap.count(x) == 1);
            }
        }
    }
    assert(inv_frontier(g, w)) by {
        assert forall|y: int|
            0 <= y < g.n && !w.done.contains(y) && (#[trigger] w.dist[y])
                < INF implies w.heap.count(entry(w.dist[y], y)) > 0 by {
            assert(v.heap.count(entry(v.dist[y], y)) > 0);
            assert(entry(v.dist[y], y) != x);
        }
    }
    assert(inv_pred(g, s, w));
    assert(inv_order(g, w)) by {
        assert(!v.order.contains(x.node)) by {
            if v.order.contains(x.node) {
                let i = choose|i: int| 0 <= i < v.order.len() && v.order[i] == x.node;
                assert(v.done.contains(v.order[i] as int));
            }
        }
        assert(!v.base.contains(u));
        assert forall|i: int, j: int|
            0 <= i < w.order.len() && 0 <= j < w.order.len() && i != j implies w.order[i]
            != w.order[j] by {
            if i < v.order.len() {
                assert(v.order.contains(v.order[i]));
            }
            if j < v.order.len() {
                assert(v.order.contains(v.order[j]));
            }
        }
        assert forall|z: int| w.done.contains(z) && !w.base.contains(z) implies 0 <= z < g.n
            && #[trigger] w.order.contains(z as u32) by {
            if z == u {
                assert(w.order[v.order.len() as int] == x.node);
            } else {
                assert(v.order.contains(z as u32));
                let i = choose|i: int| 0 <= i < v.order.len() && v.order[i] == z as u32;
                assert(w.order[i] == z as u32);
            }
        }
        assert forall|i: int, j: int| 0 <= i <= j < w.order.len() implies w.dist[(
        #[trigger] w.order[i]) as int] <= w.dist[(#[trigger] w.order[j]) as int] by {
            if j == v.order.len() && i < j {
                assert(v.done.contains(v.order[i] as int));
            }
        }
    }
}

/// The view after the next edge of the active vertex lowered its target's distance.
pub open spec fn after_improve(g: Graph, v: SearchView) -> SearchView {
    let e = v.upto;
    let y = g.tgt[e] as int;
    let nd = (v.dist[v.active] + g.wts[e]) as u64;
    SearchView {
        dist: v.dist.update(y, nd),
        pred: v.pred.update(y, v.active as i32),
        walks: v.walks.update(y, v.walks[v.active].push(e)),
        heap: v.heap.insert(entry(nd, y)),
        upto: e + 1,
        ..v
    }
}

/// An accepted relaxation keeps the invariant; its target was not done.
pub proof fn lemma_improve(g: Graph, s: int, bound: u64, v: SearchView)
    requires
        inv(g, s, bound, v),
        v.active >= 0,
        v.upto < g.off[v.active + 1],
        v.dist[v.active] + g.wts[v.upto] < v.dist[g.tgt[v.upto] as int],
        v.dist[v.active] + g.wts[v.upto] <= bound,
    ensures
        inv(g, s, bound, after_improve(g, v)),
        !v.done.contains(g.tgt[v.upto] as int),
        g.tgt[v.upto] as int != s,
        v.heap.count(entry((v.dist[v.active] + g.wts[v.upto]) as u64, g.tgt[v.upto] as int)) == 0,
{
    broadcast use vstd::multiset::group_multiset_axioms;

    let w = after_improve(g, v);
    let u = v.active;
    let e = v.upto;
    let y = g.tgt[e] as int;
    let nd = (v.dist[u] + g.wts[e]) as u64;
    assert(g.off[u + 1] <= g.off[g.n as int]);
    assert(g.edge_from(u, e));
    assert(0 <= y < g.n);
    let pu = v.walks[u];
    let py = pu.push(e);
    assert(v.dist[u] < INF);
    assert(g.walk_to(s, u, pu));
    lemma_walk_extend(g, s, pu, e);
    assert(g.walk_to(s, y, py));
    assert(g.walk_len(py) == nd);
    // a vertex whose distance is final cannot be improved
    assert forall|z: int| 0 <= z < g.n && g.no_walk_below(s, z, v.dist[z] as int) implies z
        != y by {
        if z == y {
            assert(g.walk_to(s, y, py));
        }
    }
    assert(!v.done.contains(y));
    assert(y != u);
    assert(y != s);
    let it = entry(nd, y);
    assert(v.heap.count(it) == 0) by {
        if v.heap.count(it) > 0 {
            assert(v.dist[it.node as int] <= it.dist);
        }
    }
    assert(inv_shape(g, s, w));
    assert(inv_walks(g, s, bound, w)) by {
        assert forall|x: int| 0 <= x < g.n && (#[trigger] w.dist[x]) < INF implies {
            &&& g.walk_to(s, x, w.walks[x])
            &&& g.walk_len(w.walks[x]) == w.dist[x]
            &&& w.dist[x] <= bound
        } by {
            if x != y {
                assert(v.dist[x] < INF);
            }
        }
    }
    assert(inv_done(g, s, w)) by {
        assert forall|z: int| #[trigger] w.done.contains(z) implies {
            &&& 0 <= z < g.n
            &&& w.dist[z] < INF
            &&& w.dist[z] <= w.floor
            &&& g.no_walk_below(s, z, w.dist[z] as int)
        } by {
            assert(v.done.contains(z));
            assert(z != y);
        }
    }
    assert(inv_relaxed(g, bound, w)) by {
        assert forall|z: int, f: int|
            w.done.contains(z) && #[trigger] g.edge_from(z, f) && (z != w.active || f
                < w.upto) implies relaxed(g, w.dist, bound, z, f) by {
            assert(z != y);
            if z == u && f == e {
            } else {
                assert(relaxed(g, v.dist, bound, z, f));
            }
        }
    }
    assert(inv_heap(g, w)) by {
        assert forall|x: HeapItem| #[trigger] w.heap.count(x) > 0 implies {
            &&& x.node < g.n
            &&& x.dist < INF
            &&& w.dist[x.node as int] <= x.dist
            &&& w.floor <= x.dist
            &&& w.heap.count(x) == 1
            &&& w.done.contains(x.node as int) ==> w.dist[x.node as int] < x.dist
        } by {
            if x == it {
            } else {
                assert(v.heap.count(x) > 0);
            }
        }
    }
    assert(inv_frontier(g, w)) by {
        assert forall|x: int|
            0 <= x < g.n && !w.done.contains(x) && (#[trigger] w.dist[x])
                < INF implies w.heap.count(entry(w.dist[x], x)) > 0 by {
            if x != y {
                assert(v.heap.count(entry(v.dist[x], x)) > 0);
            }
        }
    }
    assert(inv_pred(g, s, w)) by {
        assert forall|x: int| 0 <= x < g.n && x != s && w.dist[x] < INF implies {
            &&& g.tight_at(w.dist, (#[trigger] w.pred[x]) as int, x)
            &&& g.no_walk_below(s, w.pred[x] as int, w.dist[w.pred[x] as int] as int)
        } by {
            if x == y {
                assert(g.edge_from(u, e) && g.tgt[e] == y && w.dist[u] + g.wts[e] == w.dist[y]);
            } else {
                let q = v.pred[x] as int;
                assert(g.tight_at(v.dist, q, x));
                assert(q != y);
                let f = choose|f: int| #[trigger]
                    g.edge_from(q, f) && g.tgt[f] == x && v.dist[q] + g.wts[f] == v.dist[x];
                assert(g.edge_from(q, f) && g.tgt[f] == x && w.dist[q] + g.wts[f] == w.dist[x]);
            }
        }
    }
    assert(inv_order(g, w)) by {
        assert forall|i: int, j: int| 0 <= i <= j < w.order.len() implies w.dist[(
        #[trigger] w.order[i]) as int] <= w.dist[(#[trigger] w.order[j]) as int] by {
            assert(v.done.contains(v.order[i] as int));
            assert(v.done.contains(v.order[j] as int));
        }
    }
}

/// The view after the next edge of the active vertex was found relaxed.
pub open spec fn after_skip(v: SearchView) -> SearchView {
    SearchView { upto: v.upto + 1, ..v }
}

/// Passing over an edge that is relaxed, or leads to a done vertex, keeps the invariant.
pub proof fn lemma_skip(g: Graph, s: int, bound: u64, v: SearchView)
    requires
        inv(g, s, bound, v),
        v.active >= 0,
        v.upto < g.off[v.active + 1],
        v.done.contains(g.tgt[v.upto] as int) || relaxed(g, v.dist, bound, v.active, v.upto),
    ensures
        inv(g, s, bound, after_skip(v)),
{
    let w = after_skip(v);
    let u = v.active;
    let e = v.upto;
    let y = g.tgt[e] as int;
    assert(relaxed(g, v.dist, bound, u, e)) by {
        if v.done.contains(y) {
            assert(v.dist[y] <= v.floor);
        }
    }
    assert forall|z: int, f: int|
        w.done.contains(z) && #[trigger] g.edge_from(z, f) && (z != w.active || f
            < w.upto) implies relaxed(g, w.dist, bound, z, f) by {
        if z == u && f == e {
        } else {
            assert(relaxed(g, v.dist, bound, z, f));
        }
    }
}

/// The view once every edge of the active vertex is relaxed.
pub open spec fn after_finish(v: SearchView) -> SearchView {
    SearchView { active: -1, ..v }
}

/// With every edge of the active vertex relaxed, no vertex is active.
pub proof fn lemma_finish(g: Graph, s: int, bound: u64, v: SearchView)
    requires
        inv(g, s, bound, v),
        v.active >= 0,
        v.upto == g.off[v.active + 1],
    ensures
        inv(g, s, bound, after_finish(v)),
{
    let w = after_finish(v);
    assert forall|z: int, f: int|
        w.done.contains(z) && #[trigger] g.edge_from(z, f) && (z != w.active || f
            < w.upto) implies relaxed(g, w.dist, bound, z, f) by {
        assert(relaxed(g, v.dist, bound, z, f));
    }
}

/// Distinct vertices of a graph of `n` vertices are at most `n`.
pub proof fn lemma_distinct_bounded(q: Seq<u32>, n: nat)
    requires
        q.no_duplicates(),
        forall|i: int| 0 <= i < q.len() ==> (#[trigger] q[i]) < n,
    ensures
        q.len() <= n,
    decreases n,
{
    if n == 0 {
        if q.len() > 0 {
            assert(q[0] < n);
        }
    } else {
        let top = (n - 1) as u32;
        if q.contains(top) {
            let i = choose|i: int| 0 <= i < q.len() && q[i] == top;
            let r = q.remove(i);
            assert forall|a: int, b: int| 0 <= a < r.len() && 0 <= b < r.len() && a != b implies r[a]
                != r[b] by {
                let a2 = if a < i { a } else { a + 1 };
                let b2 = if b < i { b } else { b + 1 };
                assert(q[a2] != q[b2]);
            }
            assert forall|a: int| 0 <= a < r.len() implies (#[trigger] r[a]) < (n - 1) as nat by {
                let a2 = if a < i { a } else { a + 1 };
                assert(q[a2] != q[i]);
                assert(q[a2] < n);
            }
            lemma_distinct_bounded(r, (n - 1) as nat);
        } else {
            assert forall|a: int| 0 <= a < q.len() implies (#[trigger] q[a]) < (n - 1) as nat by {
                assert(q.contains(q[a]));
                assert(q[a] < n);
            }
            lemma_distinct_bounded(q, (n - 1) as nat);
        }
    }
}

/// The view of a search that is about to start from `s` alone.
pub open spec fn start_view(g: Graph, s: int) -> SearchView {
    SearchView {
        dist: Seq::new(g.n, |i: int| if i == s { 0u64 } else { INF }),
        pred: Seq::new(g.n, |i: int| -1i32),
        walks: Seq::new(g.n, |i: int| Seq::<int>::empty()),
        done: Set::empty(),
        base: Set::empty(),
        heap: Multiset::singleton(entry(0, s)),
        order: Seq::empty(),
        active: -1,
        upto: 0,
        floor: 0,
    }
}

/// The invariant holds before the first step.
pub proof fn lemma_start(g: Graph, s: int, bound: u64)
    requires
        g.wf(),
        0 <= s < g.n,
    ensures
        inv(g, s, bound, start_view(g, s)),
{
    broadcast use vstd::multiset::group_multiset_axioms;

    let v = start_view(g, s);
    assert(g.walk_to(s, s, v.walks[s]));
    assert(g.walk_len(v.walks[s]) == 0);
    assert(inv_walks(g, s, bound, v));
    assert(inv_heap(g, v)) by {
        assert forall|x: HeapItem| #[trigger] v.heap.count(x) > 0 implies x == entry(0, s) by {
            if x != entry(0, s) {
                assert(v.heap.count(x) == 0);
            }
        }
    }
    assert(inv_frontier(g, v));
    assert(inv_pred(g, s, v));
    assert(inv_order(g, v));
}

/// What a search that ran until its heap was empty has found: every
/// distance within `bound` exactly, `INF` for the vertices beyond it, and
/// tight predecessors.
pub open spec fn complete_within(g: Graph, s: int, bound: u64, dist: Seq<u64>) -> bool {
    &&& dist.len() == g.n
    &&& forall|x: int|
        0 <= x < g.n ==> {
            &&& (#[trigger] dist[x]) < INF ==> dist[x] <= bound && g.is_dist(s, x, dist[x])
            &&& dist[x] == INF ==> g.no_walk_below(s, x, beyond(bound))
        }
}

/// A search whose heap is empty has found every distance within the bound.
pub proof fn lemma_complete(g: Graph, s: int, bound: u64, v: SearchView)
    requires
        inv(g, s, bound, v),
        v.active == -1,
        v.heap.len() == 0,
    ensures
        complete_within(g, s, bound, v.dist),
        g.pred_tight(s, v.dist, v.pred),
        forall|x: int| 0 <= x < g.n ==> (v.done.contains(x) <==> (#[trigger] v.dist[x]) < INF),
{
    broadcast use vstd::multiset::group_multiset_axioms;

    assert forall|x: HeapItem| v.heap.count(x) == 0 by {
        vstd::multiset::axiom_count_le_len(v.heap, x);
    }
    assert forall|x: int| 0 <= x < g.n implies {
        &&& ((#[trigger] v.dist[x]) < INF ==> v.dist[x] <= bound && g.is_dist(s, x, v.dist[x]))
        &&& (v.dist[x] == INF ==> g.no_walk_below(s, x, beyond(bound)))
        &&& (v.done.contains(x) <==> v.dist[x] < INF)
    } by {
        if v.dist[x] < INF {
            if !v.done.contains(x) {
                assert(v.heap.count(entry(v.dist[x], x)) > 0);
            }
            assert(g.walk_to(s, x, v.walks[x]));
        } else {
            assert forall|p: Seq<int>| #[trigger] g.walk_to(s, x, p) implies beyond(bound)
                <= g.walk_len(p) by {
                lemma_exit(g, s, bound, v, beyond(bound), p);
            }
        }
    }
    assert(g.pred_tight(s, v.dist, v.pred));
}

/// Within an unbounded search, complete means solved.
pub proof fn lemma_complete_unbounded(g: Graph, s: int, dist: Seq<u64>)
    requires
        complete_within(g, s, INF, dist),
    ensures
        g.is_solution(s, dist),
{
    assert forall|x: int| 0 <= x < g.n implies g.is_dist(s, x, #[trigger] dist[x]) by {
        if dist[x] == INF {
            assert(beyond(INF) == INF as int);
        }
    }
}

/// Number of edges of `u` before index `upto` that lead, from distance
/// `du`, to a distance within `bound`.
pub open spec fn edges_within(g: Graph, u: int, du: u64, bound: u64, upto: int) -> nat
    decreases upto - g.off[u],
{
    if upto <= g.off[u] {
        0
    } else {
        edges_within(g, u, du, bound, upto - 1) + if du + g.wts[upto - 1] <= bound {
            1nat
        } else {
            0nat
        }
    }
}

/// Number of edges that lead from a vertex of `order`, at its entry in
/// `dist`, to a distance within `bound`; each entry of `order` counted.
pub open spec fn within_sum(g: Graph, order: Seq<u32>, dist: Seq<u64>, bound: u64) -> nat
    decreases order.len(),
{
    if order.len() == 0 {
        0
    } else {
        within_sum(g, order.drop_last(), dist, bound) + edges_within(
            g,
            order.last() as int,
            dist[order.last() as int],
            bound,
            g.off[order.last() + 1] as int,
        )
    }
}

/// The count reads `dist` at the entries of `order` only.
pub proof fn lemma_within_sum_same(g: Graph, order: Seq<u32>, d1: Seq<u64>, d2: Seq<u64>, bound: u64)
    requires
        forall|i: int| 0 <= i < order.len() ==> d1[(#[trigger] order[i]) as int] == d2[order[i] as int],
    ensures
        within_sum(g, order, d1, bound) == within_sum(g, order, d2, bound),
    decreases order.len(),
{
    if order.len() > 0 {
        let q = order.drop_last();
        assert forall|i: int| 0 <= i < q.len() implies d1[(#[trigger] q[i]) as int] == d2[q[i] as int] by {
            assert(q[i] == order[i]);
        }
        lemma_within_sum_same(g, q, d1, d2, bound);
        assert(order[order.len() - 1] == order.last());
    }
}

/// Number of edges that leave `u`.
pub open spec fn degree(g: Graph, u: int) -> int {
    g.off[u + 1] - g.off[u]
}

/// Number of edges that leave the vertices of `order`, each entry counted.
pub open spec fn degree_sum(g: Graph, order: Seq<u32>) -> int
    decreases order.len(),
{
    if order.len() == 0 {
        0
    } else {
        degree_sum(g, order.drop_last()) + degree(g, order.last() as int)
    }
}

/// Without one of its entries, a list has that entry's edges less.
proof fn lemma_degree_sum_remove(g: Graph, order: Seq<u32>, i: int)
    requires
        0 <= i < order.len(),
    ensures
        degree_sum(g, order.remove(i)) == degree_sum(g, order) - degree(g, order[i] as int),
    decreases order.len(),
{
    if i == order.len() - 1 {
        assert(order.remove(i) =~= order.drop_last());
    } else {
        let q = order.drop_last();
        lemma_degree_sum_remove(g, q, i);
        assert(order.remove(i).drop_last() =~= q.remove(i));
        assert(order.remove(i).last() == order.last());
    }
}

/// Distinct vertices below `top` have no more edges than start below `top`.
proof fn lemma_degree_sum_below(g: Graph, order: Seq<u32>, top: nat)
    requires
        g.wf(),
        top <= g.n,
        order.no_duplicates(),
        forall|i: int| 0 <= i < order.len() ==> (#[trigger] order[i]) < top,
    ensures
        0 <= degree_sum(g, order) <= g.off[top as int],
    decreases top,
{
    if top == 0 {
        if order.len() > 0 {
            assert(order[0] < top);
        }
    } else {
        let last = (top - 1) as u32;
        assert(g.off[top - 1] <= g.off[top as int]);
        assert(g.off[0] <= g.off[top - 1]);
        if order.contains(last) {
            let i = choose|i: int| 0 <= i < order.len() && order[i] == last;
            let r = order.remove(i);
            assert forall|a: int, b: int| 0 <= a < r.len() && 0 <= b < r.len() && a != b implies r[a]
                != r[b] by {
                let a2 = if a < i { a } else { a + 1 };
                let b2 = if b < i { b } else { b + 1 };
                assert(order[a2] != order[b2]);
            }
            assert forall|a: int| 0 <= a < r.len() implies (#[trigger] r[a]) < (top - 1) as nat by {
                let a2 = if a < i { a } else { a + 1 };
                assert(order[a2] != order[i]);
                assert(order[a2] < top);
            }
            lemma_degree_sum_below(g, r, (top - 1) as nat);
            lemma_degree_sum_remove(g, order, i);
        } else {
            assert forall|a: int| 0 <= a < order.len() implies (#[trigger] order[a]) < (top
                - 1) as nat by {
                assert(order.contains(order[a]));
                assert(order[a] < top);
            }
            lemma_degree_sum_below(g, order, (top - 1) as nat);
        }
    }
}

/// Distinct vertices have no more edges than the graph.
pub proof fn lemma_degree_sum_bound(g: Graph, order: Seq<u32>)
    requires
        g.wf(),
        order.no_duplicates(),
        forall|i: int| 0 <= i < order.len() ==> (#[trigger] order[i]) < g.n,
    ensures
        0 <= degree_sum(g, order) <= g.m(),
        g.m() <= 0xffff_ffff,
{
    lemma_degree_sum_below(g, order, g.n);
}

/// The view when a segment that ran its heap empty is closed: what is
/// done becomes the base of the next search.
pub open spec fn after_close(v: SearchView) -> SearchView {
    SearchView { order: Seq::empty(), base: v.done, ..v }
}

/// Closing a segment that ran to the end keeps the invariant.
pub proof fn lemma_close(g: Graph, s: int, bound: u64, v: SearchView)
    requires
        inv(g, s, bound, v),
        v.active == -1,
    ensures
        inv(g, s, bound, after_close(v)),
{
}

/// The view when a segment that spent its budget is closed: the vertex
/// settled last goes back to the heap, the rest becomes the base of the
/// next search.
pub open spec fn after_close_cut(v: SearchView) -> SearchView {
    SearchView {
        order: Seq::empty(),
        done: v.done.remove(v.active),
        base: v.done.remove(v.active),
        heap: v.heap.insert(entry(v.floor, v.active)),
        active: -1,
        ..v
    }
}

/// Closing a segment that spent its budget keeps the invariant.
pub proof fn lemma_close_cut(g: Graph, s: int, bound: u64, v: SearchView)
    requires
        inv(g, s, bound, v),
        v.active >= 0,
        v.upto == g.off[v.active],
    ensures
        inv(g, s, bound, after_close_cut(v)),
        v.heap.count(entry(v.floor, v.active)) == 0,
{
    broadcast use vstd::multiset::group_multiset_axioms;

    let w = after_close_cut(v);
    let u0 = v.active;
    let it = entry(v.floor, u0);
    assert(v.done.contains(u0));
    assert(v.heap.count(it) == 0) by {
        if v.heap.count(it) > 0 {
            assert(v.dist[it.node as int] < it.dist);
        }
    }
    assert(inv_done(g, s, w)) by {
        assert forall|z: int| #[trigger] w.done.contains(z) implies {
            &&& 0 <= z < g.n
            &&& w.dist[z] < INF
            &&& w.dist[z] <= w.floor
            &&& g.no_walk_below(s, z, w.dist[z] as int)
        } by {
            assert(v.done.contains(z));
        }
    }
    assert(inv_relaxed(g, bound, w)) by {
        assert forall|z: int, f: int|
            w.done.contains(z) && #[trigger] g.edge_from(z, f) && (z != w.active || f
                < w.upto) implies relaxed(g, w.dist, bound, z, f) by {
            assert(v.done.contains(z) && z != u0);
        }
    }
    assert(inv_heap(g, w)) by {
        assert forall|x: HeapItem| #[trigger] w.heap.count(x) > 0 implies {
            &&& x.node < g.n
            &&& x.dist < INF
            &&& w.dist[x.node as int] <= x.dist
            &&& w.floor <= x.dist
            &&& w.heap.count(x) == 1
            &&& w.done.contains(x.node as int) ==> w.dist[x.node as int] < x.dist
        } by {
            if x != it {
                assert(v.heap.count(x) > 0);
            }
        }
    }
    assert(inv_frontier(g, w)) by {
        assert forall|x: int|
            0 <= x < g.n && !w.done.contains(x) && (#[trigger] w.dist[x])
                < INF implies w.heap.count(entry(w.dist[x], x)) > 0 by {
            if x != u0 {
                assert(v.heap.count(entry(v.dist[x], x)) > 0);
            }
        }
    }
    assert(inv_order(g, w));
}

/// The view when a done vertex at the floor goes back to the heap.
pub open spec fn after_reopen(v: SearchView, x: int) -> SearchView {
    SearchView {
        done: v.done.remove(x),
        base: v.base.remove(x),
        heap: v.heap.insert(entry(v.floor, x)),
        ..v
    }
}

/// Handing a done vertex at the floor back to the heap keeps the invariant.
pub proof fn lemma_reopen(g: Graph, s: int, bound: u64, v: SearchView, x: int)
    requires
        inv(g, s, bound, v),
        v.active == -1,
        v.order.len() == 0,
        v.done.contains(x),
        v.dist[x] == v.floor,
    ensures
        inv(g, s, bound, after_reopen(v, x)),
        v.heap.count(entry(v.floor, x)) == 0,
{
    broadcast use vstd::multiset::group_multiset_axioms;

    let w = after_reopen(v, x);
    let it = entry(v.floor, x);
    assert(v.heap.count(it) == 0) by {
        if v.heap.count(it) > 0 {
            assert(v.dist[it.node as int] < it.dist);
        }
    }
    assert(inv_done(g, s, w)) by {
        assert forall|z: int| #[trigger] w.done.contains(z) implies {
            &&& 0 <= z < g.n
            &&& w.dist[z] < INF
            &&& w.dist[z] <= w.floor
            &&& g.no_walk_below(s, z, w.dist[z] as int)
        } by {
            assert(v.done.contains(z));
        }
    }
    assert(inv_relaxed(g, bound, w)) by {
        assert forall|z: int, f: int|
            w.done.contains(z) && #[trigger] g.edge_from(z, f) && (z != w.active || f
                < w.upto) implies relaxed(g, w.dist, bound, z, f) by {
            assert(v.done.contains(z));
        }
    }
    assert(inv_heap(g, w)) by {
        assert forall|y: HeapItem| #[trigger] w.heap.count(y) > 0 implies {
            &&& y.node < g.n
            &&& y.dist < INF
            &&& w.dist[y.node as int] <= y.dist
            &&& w.floor <= y.dist
            &&& w.heap.count(y) == 1
            &&& w.done.contains(y.node as int) ==> w.dist[y.node as int] < y.dist
        } by {
            if y != it {
                assert(v.heap.count(y) > 0);
            }
        }
    }
    assert(inv_frontier(g, w)) by {
        assert forall|y: int|
            0 <= y < g.n && !w.done.contains(y) && (#[trigger] w.dist[y])
                < INF implies w.heap.count(entry(w.dist[y], y)) > 0 by {
            if y != x {
                assert(v.heap.count(entry(v.dist[y], y)) > 0);
            }
        }
    }
    assert(inv_order(g, w)) by {
        assert forall|u: int| w.done.contains(u) && !w.base.contains(u) implies 0 <= u < g.n
            && #[trigger] w.order.contains(u as u32) by {
            assert(v.done.contains(u) && !v.base.contains(u));
            assert(v.order.contains(u as u32));
        }
    }
}

} // verus!

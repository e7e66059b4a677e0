//! The bounded prefix search: settle at most `k + 1` vertices within a
//! bound, and where the budget runs out, tighten the bound to the distance
//! of the last vertex settled and keep only what lies strictly below it.

use vstd::prelude::*;
use crate::graph::{Csr, Graph, INF, STATUS_OK, graph_of, entry_status, check_entry};
use crate::frontier::{
    SearchView, inv, lemma_start, lemma_complete, complete_within, within_sum, lemma_within_sum_same,
};
use crate::search::{run_search, seed_search, only_source, fresh, parents_ok, parent_listed, RELAX_ROOM};
use crate::subtree::parents_first;
use crate::pivot::{in_set, is_root};
use crate::chain::{count_lt, lemma_count_lt_single, lemma_count_lt_fewer};
use crate::stats::{SsspResultInfo, SpecPhase1Stats};

verus! {

/// How a bounded prefix search ended.
#[derive(Clone, Copy, Debug, PartialEq, Eq, Structural)]
pub enum BaseCaseOutcome {
    /// The heap ran empty within the budget.
    Success,
    /// The budget of `k + 1` settled vertices was spent.
    Truncated,
}

/// Result of a bounded prefix search.
#[derive(Clone, Copy, Debug, PartialEq, Eq, Structural)]
pub struct BaseCaseResult {
    /// 0 for success, 1 for truncated.
    pub outcome: i32,
    /// The bound after the run.
    pub new_bound: u64,
    /// Size of the collected set.
    pub collected: u32,
}

impl BaseCaseResult {
    /// The outcome as a variant.
    pub fn kind(&self) -> (o: BaseCaseOutcome)
        ensures
            o == (if self.outcome == 1 {
                BaseCaseOutcome::Truncated
            } else {
                BaseCaseOutcome::Success
            }),
    {
        if self.outcome == 1 {
            BaseCaseOutcome::Truncated
        } else {
            BaseCaseOutcome::Success
        }
    }
}

/// Number of entries of `order` whose distance is finite.
pub open spec fn count_reached(order: Seq<u32>, dist: Seq<u64>) -> nat
    decreases order.len(),
{
    if order.len() == 0 {
        0
    } else {
        count_reached(order.drop_last(), dist) + if dist[order.last() as int] < INF {
            1nat
        } else {
            0nat
        }
    }
}

/// No more entries are reached than there are.
pub proof fn lemma_count_reached_bound(order: Seq<u32>, dist: Seq<u64>)
    ensures
        count_reached(order, dist) <= order.len(),
    decreases order.len(),
{
    if order.len() > 0 {
        lemma_count_reached_bound(order.drop_last(), dist);
    }
}

/// Where every entry is reached, all are counted.
pub proof fn lemma_count_reached_all(order: Seq<u32>, dist: Seq<u64>)
    requires
        forall|i: int| 0 <= i < order.len() ==> dist[(#[trigger] order[i]) as int] < INF,
    ensures
        count_reached(order, dist) == order.len(),
    decreases order.len(),
{
    if order.len() > 0 {
        let q = order.drop_last();
        assert forall|i: int| 0 <= i < q.len() implies dist[(#[trigger] q[i]) as int] < INF by {
            assert(q[i] == order[i]);
        }
        lemma_count_reached_all(q, dist);
    }
}

/// The pop order lists distinct vertices of the graph.
pub open spec fn order_ok(g: Graph, order: Seq<u32>) -> bool {
    &&& order.no_duplicates()
    &&& forall|i: int| 0 <= i < order.len() ==> (#[trigger] order[i]) < g.n
}

/// What a run that ended within its budget leaves: every vertex within the
/// bound at its distance, in `order` once, and nothing else reached.
pub open spec fn success_post(
    g: Graph,
    s: int,
    k: u32,
    b0: u64,
    dist: Seq<u64>,
    pred: Seq<i32>,
    order: Seq<u32>,
    res: BaseCaseResult,
) -> bool {
    &&& res.new_bound == b0
    &&& order.len() <= k
    &&& res.collected == order.len()
    &&& complete_within(g, s, b0, dist)
    &&& g.pred_tight(s, dist, pred)
    &&& forall|x: int| 0 <= x < g.n ==> ((#[trigger] dist[x]) < INF <==> order.contains(x as u32))
    &&& forall|i: int, j: int|
        0 <= i <= j < order.len() ==> dist[(#[trigger] order[i]) as int] <= dist[(
        #[trigger] order[j]) as int]
}

/// What a run that spent its budget leaves: `k + 1` distinct vertices lie
/// within the new bound, the last of them exactly at it; the vertices
/// strictly below the bound hold their distances and tight predecessors;
/// the settled vertices at the bound are reset; no other vertex is nearer
/// than the bound.
pub open spec fn truncated_post(
    g: Graph,
    s: int,
    k: u32,
    b0: u64,
    dist: Seq<u64>,
    pred: Seq<i32>,
    order: Seq<u32>,
    res: BaseCaseResult,
) -> bool {
    let b = res.new_bound;
    &&& order.len() == k + 1
    &&& b <= b0
    &&& b < INF
    &&& res.collected <= k
    &&& g.is_dist(s, order.last() as int, b)
    &&& forall|i: int| 0 <= i < order.len() ==> g.within(s, (#[trigger] order[i]) as int, b as int)
    &&& forall|x: int|
        0 <= x < g.n && (#[trigger] dist[x]) < b ==> {
            &&& g.is_dist(s, x, dist[x])
            &&& order.contains(x as u32)
            &&& x != s ==> g.tight_at(dist, pred[x] as int, x)
            &&& x == s ==> pred[x] == -1
        }
    &&& forall|x: int| 0 <= x < g.n && (#[trigger] dist[x]) >= b ==> g.no_walk_below(s, x, b as int)
    &&& forall|i: int|
        0 <= i < order.len() ==> {
            let x = (#[trigger] order[i]) as int;
            dist[x] < b || (dist[x] == INF && pred[x] == -1 && g.is_dist(s, x, b))
        }
    &&& forall|x: int|
        0 <= x < g.n && !order.contains(x as u32) && (#[trigger] dist[x]) < INF ==> g.walk_of_len(
            s,
            x,
            dist[x] as int,
        )
}

/// What `basecase_truncated` leaves.
pub open spec fn basecase_post(
    g: Graph,
    s: int,
    k: u32,
    b0: u64,
    dist: Seq<u64>,
    pred: Seq<i32>,
    order: Seq<u32>,
    res: BaseCaseResult,
) -> bool {
    &&& dist.len() == g.n
    &&& pred.len() == g.n
    &&& order_ok(g, order)
    &&& forall|x: int| 0 <= x < g.n ==> -1 <= (#[trigger] pred[x]) < g.n
    &&& res.collected == count_reached(order, dist)
    &&& res.outcome == 0 || res.outcome == 1
    &&& res.outcome == 0 ==> success_post(g, s, k, b0, dist, pred, order, res)
    &&& res.outcome == 1 ==> truncated_post(g, s, k, b0, dist, pred, order, res)
    &&& order.len() >= 1
    &&& order[0] == s
    &&& forall|i: int, j: int|
        0 <= i <= j < order.len() ==> dist[(#[trigger] order[i]) as int] <= dist[(
        #[trigger] order[j]) as int]
    &&& forall|x: int| 0 <= x < g.n ==> #[trigger] entry_ok(dist, pred, b0, x)
    &&& parents_first(dist, pred, res.new_bound, order)
}

/// The distances as the search had them: an entry that was reset stands at the bound `b` again.
pub open spec fn restored(dist: Seq<u64>, b: u64) -> Seq<u64> {
    Seq::new(dist.len(), |x: int| if dist[x] == INF { b } else { dist[x] })
}

/// The vertices whose edges the search relaxed: all of `order`, but the
/// last where the budget was spent.
pub open spec fn relaxed_part(order: Seq<u32>, outcome: i32) -> Seq<u32> {
    if outcome == 1 {
        order.drop_last()
    } else {
        order
    }
}

/// The entry of `x` is within the bound or `INF`, and an unreached vertex has no predecessor.
pub open spec fn entry_ok(dist: Seq<u64>, pred: Seq<i32>, b0: u64, x: int) -> bool {
    &&& dist[x] < INF ==> dist[x] <= b0
    &&& dist[x] == INF ==> pred[x] == -1
}

/// The arrays of `v` with the settled vertices at or above `b` reset.
pub open spec fn trimmed_from(
    v: SearchView,
    b: u64,
    upto: int,
    dist: Seq<u64>,
    pred: Seq<i32>,
) -> bool {
    &&& dist.len() == v.dist.len()
    &&& pred.len() == v.pred.len()
    &&& forall|x: int|
        0 <= x < dist.len() ==> {
            let cut = v.dist[x] >= b && v.order.take(upto).contains(x as u32);
            &&& (#[trigger] dist[x]) == if cut { INF } else { v.dist[x] }
            &&& pred[x] == if cut { -1i32 } else { v.pred[x] }
        }
}

/// What a search that spent its budget leaves, once its last distances are trimmed.
proof fn lemma_truncated(
    g: Graph,
    s: int,
    k: u32,
    b0: u64,
    v: SearchView,
    dist: Seq<u64>,
    pred: Seq<i32>,
    res: BaseCaseResult,
)
    requires
        inv(g, s, b0, v),
        v.base =~= Set::empty(),
        v.active >= 0,
        v.order.len() == k + 1,
        res.new_bound == v.floor,
        res.outcome == 1,
        res.collected == count_reached(v.order, dist),
        trimmed_from(v, v.floor, v.order.len() as int, dist, pred),
        forall|p: Seq<int>, y: int|
            (!v.done.contains(y) || y == v.active) && #[trigger] g.walk_to(s, y, p) ==> v.floor
                <= g.walk_len(p),
        v.order[0] == s,
        parents_ok(s, v.dist, v.pred, v.order),
    ensures
        basecase_post(g, s, k, b0, dist, pred, v.order, res),
{
    broadcast use vstd::multiset::group_multiset_axioms;

    lemma_parents_kept(g, s, b0, v, dist, pred, res.new_bound);

    assert(v.order.take(v.order.len() as int) =~= v.order);
    assert forall|i: int, j: int| 0 <= i <= j < v.order.len() implies dist[(
    #[trigger] v.order[i]) as int] <= dist[(#[trigger] v.order[j]) as int] by {
        let xi = v.order[i];
        let xj = v.order[j];
        assert(v.dist[xi as int] <= v.dist[xj as int]);
        assert(xi < g.n && xj < g.n);
        assert(v.order.contains(xi));
        assert(v.order.contains(xj));
        assert(dist[xi as int] <= INF);
        assert(dist[xj as int] <= INF);
    }
    assert forall|x: int| 0 <= x < g.n implies #[trigger] entry_ok(dist, pred, b0, x) by {
        if v.dist[x] < INF {
            assert(v.dist[x] <= b0);
        }
    }

    let b = v.floor;
    let order = v.order;
    let u0 = v.active;
    assert(order.take(order.len() as int) =~= order);
    assert(v.done.contains(u0));
    assert(g.walk_to(s, u0, v.walks[u0]));
    assert(g.is_dist(s, u0, b));
    assert(dist[u0] == INF);
    assert(count_reached(order, dist) <= k) by {
        lemma_count_reached_bound(order.drop_last(), dist);
    }
    assert forall|i: int| 0 <= i < order.len() implies g.within(
        s,
        (#[trigger] order[i]) as int,
        b as int,
    ) by {
        let x = order[i] as int;
        assert(v.done.contains(x));
        assert(g.walk_to(s, x, v.walks[x]));
    }
    assert forall|x: int| 0 <= x < g.n && (#[trigger] dist[x]) < b implies {
        &&& g.is_dist(s, x, dist[x])
        &&& order.contains(x as u32)
        &&& x != s ==> g.tight_at(dist, pred[x] as int, x)
        &&& x == s ==> pred[x] == -1
    } by {
        assert(v.dist[x] == dist[x]);
        if !v.done.contains(x) {
            assert(v.heap.count(crate::frontier::entry(v.dist[x], x)) > 0);
        }
        assert(v.done.contains(x));
        assert(g.walk_to(s, x, v.walks[x]));
        if x != s {
            let q = v.pred[x] as int;
            assert(g.tight_at(v.dist, q, x));
            let f = choose|f: int| #[trigger]
                g.edge_from(q, f) && g.tgt[f] == x && v.dist[q] + g.wts[f] == v.dist[x];
            assert(v.dist[q] < b);
            assert(dist[q] == v.dist[q]);
            assert(g.edge_from(q, f) && g.tgt[f] == x && dist[q] + g.wts[f] == dist[x]);
        }
    }
    assert forall|x: int| 0 <= x < g.n && (#[trigger] dist[x]) >= b implies g.no_walk_below(
        s,
        x,
        b as int,
    ) by {
        if v.done.contains(x) {
            assert(v.dist[x] >= b);
        }
    }
    assert forall|i: int| 0 <= i < order.len() implies {
        let x = (#[trigger] order[i]) as int;
        dist[x] < b || (dist[x] == INF && pred[x] == -1 && g.is_dist(s, x, b))
    } by {
        let x = order[i] as int;
        assert(v.done.contains(x));
        assert(order.contains(x as u32));
        assert(g.walk_to(s, x, v.walks[x]));
    }
    assert forall|x: int|
        0 <= x < g.n && !order.contains(x as u32) && (#[trigger] dist[x])
            < INF implies g.walk_of_len(s, x, dist[x] as int) by {
        assert(g.walk_to(s, x, v.walks[x]));
    }
    assert(truncated_post(g, s, k, b0, dist, pred, order, res));
    assert forall|x: int| 0 <= x < g.n implies -1 <= (#[trigger] pred[x]) < g.n by {
        lemma_pred_range(g, s, b0, v, x);
        assert(dist[x] <= INF);
    }
}

/// In what a search leaves, every collected entry that is no root has its
/// predecessor before itself.
proof fn lemma_parents_kept(
    g: Graph,
    s: int,
    b0: u64,
    v: SearchView,
    dist: Seq<u64>,
    pred: Seq<i32>,
    b: u64,
)
    requires
        inv(g, s, b0, v),
        parents_ok(s, v.dist, v.pred, v.order),
        dist.len() == v.dist.len(),
        pred.len() == v.pred.len(),
        forall|x: int|
            0 <= x < dist.len() ==> (#[trigger] dist[x]) == INF || (dist[x] == v.dist[x] && pred[x]
                == v.pred[x]),
    ensures
        parents_first(dist, pred, b, v.order),
{
    let order = v.order;
    assert forall|i: int|
        0 <= i < order.len() && in_set(dist, b, (#[trigger] order[i]) as int) && !is_root(
            dist,
            pred,
            b,
            order[i] as int,
        ) implies parent_listed(pred, order, i, order[i] as int) by {
        let x = order[i] as int;
        assert(dist[x] < INF);
        assert(pred[x] == v.pred[x]);
        assert(x != s);
        assert(parent_listed(v.pred, order, i, x));
        let j = choose|j: int| 0 <= j < i && (#[trigger] order[j]) as int == v.pred[x] as int;
        assert(order[j] as int == pred[x] as int);
    }
}

/// The count of relaxations within the bound is the same over the
/// distances of the search and over those restored from what it left.
proof fn lemma_restored(
    g: Graph,
    s: int,
    b0: u64,
    v: SearchView,
    dist: Seq<u64>,
    pred: Seq<i32>,
    outcome: i32,
    b: u64,
)
    requires
        inv(g, s, b0, v),
        outcome == 1 ==> trimmed_from(v, b, v.order.len() as int, dist, pred) && b == v.floor
            && v.active >= 0,
        outcome != 1 ==> dist == v.dist,
    ensures
        within_sum(g, relaxed_part(v.order, outcome), v.dist, b0) == within_sum(
            g,
            relaxed_part(v.order, outcome),
            restored(dist, b),
            b0,
        ),
{
    let part = relaxed_part(v.order, outcome);
    let back = restored(dist, b);
    assert(v.order.take(v.order.len() as int) =~= v.order);
    assert forall|i: int| 0 <= i < part.len() implies v.dist[(#[trigger] part[i]) as int]
        == back[part[i] as int] by {
        let x = part[i];
        assert(x == v.order[i]);
        assert(v.order.contains(x));
        assert(v.done.contains(x as int));
        assert(dist[x as int] <= INF);
    }
    lemma_within_sum_same(g, part, v.dist, back, b0);
}

/// Every predecessor is a vertex or -1.
pub proof fn lemma_pred_range(g: Graph, s: int, bound: u64, v: SearchView, x: int)
    requires
        inv(g, s, bound, v),
        0 <= x < g.n,
    ensures
        -1 <= v.pred[x] < g.n,
{
    if x != s && v.dist[x] < INF {
        assert(g.tight_at(v.dist, v.pred[x] as int, x));
    }
}

/// What a search that ran to the end within its budget leaves.
proof fn lemma_success(g: Graph, s: int, k: u32, b0: u64, v: SearchView, res: BaseCaseResult)
    requires
        inv(g, s, b0, v),
        v.base =~= Set::empty(),
        v.active == -1,
        v.heap.len() == 0,
        v.order.len() <= k,
        res.new_bound == b0,
        res.outcome == 0,
        res.collected == count_reached(v.order, v.dist),
        v.order.len() > 0 ==> v.order[0] == s,
        parents_ok(s, v.dist, v.pred, v.order),
    ensures
        basecase_post(g, s, k, b0, v.dist, v.pred, v.order, res),
{
    lemma_parents_kept(g, s, b0, v, v.dist, v.pred, res.new_bound);
    lemma_complete(g, s, b0, v);
    assert forall|x: int| 0 <= x < g.n implies #[trigger] entry_ok(v.dist, v.pred, b0, x) by {
        if v.dist[x] < INF {
            assert(v.dist[x] <= b0);
        }
    }
    if !v.done.contains(s) {
        assert(v.dist[s] < INF);
        assert(v.heap.count(crate::frontier::entry(v.dist[s], s)) > 0);
        assert(false);
    }
    assert(v.order.contains(s as u32));
    assert forall|x: int| 0 <= x < g.n implies -1 <= (#[trigger] v.pred[x]) < g.n by {
        lemma_pred_range(g, s, b0, v, x);
    }
    assert forall|i: int| 0 <= i < v.order.len() implies v.dist[(#[trigger] v.order[i]) as int]
        < INF by {
        assert(v.done.contains(v.order[i] as int));
    }
    lemma_count_reached_all(v.order, v.dist);
    assert forall|x: int| 0 <= x < g.n implies ((#[trigger] v.dist[x]) < INF <==> v.order.contains(
        x as u32,
    )) by {
        if v.order.contains(x as u32) {
            let i = choose|i: int| 0 <= i < v.order.len() && v.order[i] == x as u32;
            assert(v.done.contains(v.order[i] as int));
        }
    }
}

/// Searches from `start` within `initial_bound`, settling at most `k + 1`
/// vertices. `scratch` receives the vertices settled, in order, and
/// `relaxations` grows by the relaxations accepted.
pub fn basecase_truncated(
    n: u32,
    off: &[u32],
    tgt: &[u32],
    wts: &[u64],
    start: u32,
    k: u32,
    initial_bound: u64,
    dist: &mut Vec<u64>,
    pred: &mut Vec<i32>,
    scratch: &mut Vec<u32>,
    relaxations: &mut u64,
) -> (res: BaseCaseResult)
    requires
        graph_of(n, off, tgt, wts).wf(),
        start < n,
        old(dist)@.len() == n,
        old(pred)@.len() == n,
        *old(relaxations) <= RELAX_ROOM,
    ensures
        basecase_post(
            graph_of(n, off, tgt, wts),
            start as int,
            k,
            initial_bound,
            final(dist)@,
            final(pred)@,
            final(scratch)@,
            res,
        ),
        *old(relaxations) <= *final(relaxations) <= *old(relaxations) + tgt@.len(),
        count_lt(final(dist)@, INF) <= 1 + (*final(relaxations) - *old(relaxations)),
        *final(relaxations) - *old(relaxations) <= within_sum(
            graph_of(n, off, tgt, wts),
            relaxed_part(final(scratch)@, res.outcome),
            restored(final(dist)@, res.new_bound),
            initial_bound,
        ),
        tgt@.len() <= 0xffff_ffff,
{
    let g = Csr { n, offsets: off, targets: tgt, weights: wts };
    let ghost gg = g@;
    let ghost s = start as int;
    let (mut heap, Ghost(v0)) = seed_search(&g, start, dist, pred);
    scratch.clear();
    let visited: Vec<bool> = Vec::new();
    let budget: u64 = k as u64 + 1;
    proof {
        broadcast use vstd::multiset::group_multiset_axioms;

        lemma_start(gg, s, initial_bound);
        lemma_count_lt_single(v0.dist, s);
        assert(only_source(v0.heap, start));
        assert(fresh(v0, start));
    }
    let (truncated, Ghost(v)) = run_search(
        &g,
        start,
        budget,
        initial_bound,
        dist,
        pred,
        &visited,
        &mut heap,
        scratch,
        relaxations,
        Ghost(v0),
    );
    let len: usize = scratch.len();
    let mut new_bound: u64 = initial_bound;
    if truncated {
        let last: u32 = scratch[len - 1];
        new_bound = dist[last as usize];
        let mut i: usize = 0;
        while i < len
            invariant
                i <= len,
                len == scratch@.len(),
                scratch@ == v.order,
                inv(gg, s, initial_bound, v),
                new_bound == v.floor,
                trimmed_from(v, new_bound, i as int, dist@, pred@),
            decreases len - i,
        {
            let u: usize = scratch[i] as usize;
            proof {
                assert(v.order.take(i + 1).drop_last() =~= v.order.take(i as int));
                assert(!v.order.take(i as int).contains(v.order[i as int])) by {
                    if v.order.take(i as int).contains(v.order[i as int]) {
                        let j = choose|j: int|
                            0 <= j < i && v.order.take(i as int)[j] == v.order[i as int];
                        assert(v.order[j] == v.order[i as int]);
                    }
                }
                assert(v.order[i as int] < gg.n);
                assert(dist@[u as int] == v.dist[u as int]);
                assert(pred@[u as int] == v.pred[u as int]);
            }
            let ghost d0 = dist@;
            let ghost q0 = pred@;
            let cut_here: bool = dist[u] >= new_bound;
            if cut_here {
                dist[u] = INF;
                pred[u] = -1;
            }
            proof {
                let t0 = v.order.take(i as int);
                let t1 = v.order.take(i + 1);
                assert(t1[i as int] == v.order[i as int]);
                assert(t1.contains(u as u32));
                assert(u < gg.n);
                assert forall|x: int| 0 <= x < dist@.len() implies {
                    let cut = v.dist[x] >= new_bound && t1.contains(x as u32);
                    &&& (#[trigger] dist@[x]) == if cut { INF } else { v.dist[x] }
                    &&& pred@[x] == if cut { -1i32 } else { v.pred[x] }
                } by {
                    if x == u {
                        assert(d0[x] == v.dist[x]);
                        assert(q0[x] == v.pred[x]);
                    } else {
                        assert(dist@[x] == d0[x]);
                        assert(pred@[x] == q0[x]);
                        if t1.contains(x as u32) {
                            let j = choose|j: int| 0 <= j < t1.len() && t1[j] == x as u32;
                            assert(j != i);
                            assert(t0[j] == x as u32);
                            assert(t0.contains(x as u32));
                        }
                        if t0.contains(x as u32) {
                            let j = choose|j: int| 0 <= j < t0.len() && t0[j] == x as u32;
                            assert(t1[j] == x as u32);
                            assert(t1.contains(x as u32));
                        }
                    }
                }
                assert(dist@.len() == v.dist.len());
                assert(pred@.len() == v.pred.len());
                assert(trimmed_from(v, new_bound, i + 1, dist@, pred@));
            }
            i += 1;
        }
    }
    let mut collected: u32 = 0;
    let mut j: usize = 0;
    proof {
        assert(scratch@.take(0) =~= Seq::<u32>::empty());
    }
    while j < len
        invariant
            j <= len,
            len == scratch@.len(),
            len <= n,
            dist@.len() == n,
            forall|i: int| 0 <= i < len ==> (#[trigger] scratch@[i]) < n,
            collected == count_reached(scratch@.take(j as int), dist@),
            collected <= j,
        decreases len - j,
    {
        proof {
            assert(scratch@.take(j + 1).drop_last() =~= scratch@.take(j as int));
        }
        if dist[scratch[j] as usize] < INF {
            collected += 1;
        }
        j += 1;
    }
    proof {
        assert(scratch@.take(len as int) =~= scratch@);
    }
    let res = BaseCaseResult { outcome: if truncated { 1 } else { 0 }, new_bound, collected };
    proof {
        if truncated {
            lemma_truncated(gg, s, k, initial_bound, v, dist@, pred@, res);
            lemma_count_lt_fewer(v.dist, dist@, INF);
        } else {
            heap.lemma_size();
            lemma_success(gg, s, k, initial_bound, v, res);
        }
        assert(gg.m() == tgt@.len());
        lemma_restored(gg, s, initial_bound, v, dist@, pred@, res.outcome, new_bound);
    }
    res
}

/// Options of the bounded prefix run.
#[derive(Clone, Copy, Debug, PartialEq, Eq, Structural)]
pub struct BasecaseConfig {
    /// Budget of settled vertices; 0 counts as 1.
    pub k: u32,
    /// Initial bound; `INF` for none.
    pub bound: u64,
}

impl BasecaseConfig {
    /// The options used where none are given: `k` 1024 and no bound.
    pub fn new() -> (c: Self)
        ensures
            c.k == 1024,
            c.bound == INF,
    {
        Self { k: 1024, bound: INF }
    }
}

/// At least 1.
pub open spec fn at_least_one(k: u32) -> u32 {
    if k == 0 {
        1
    } else {
        k
    }
}

/// Computes `at_least_one`.
pub fn clamp_k(k: u32) -> (r: u32)
    ensures
        r == at_least_one(k),
{
    if k == 0 {
        1
    } else {
        k
    }
}

/// The counters that a bounded prefix run with result `res` records.
pub open spec fn phase1_stats(res: BaseCaseResult, relaxations: u64) -> SpecPhase1Stats {
    SpecPhase1Stats {
        last_outcome: res.outcome,
        last_bound: res.new_bound,
        last_collected: res.collected,
        last_relaxations: relaxations,
    }
}

/// Some pop order makes `res` the result of the bounded prefix search
/// that left `dist` and `pred`, and `relaxations` the relaxations it
/// accepted: one at least for every reached vertex but the start, and no
/// more than lead within the bound from the vertices whose edges it relaxed.
pub open spec fn basecase_ran(
    g: Graph,
    s: int,
    k: u32,
    b0: u64,
    dist: Seq<u64>,
    pred: Seq<i32>,
    res: BaseCaseResult,
    relaxations: u64,
) -> bool {
    exists|order: Seq<u32>|
        #[trigger] basecase_post(g, s, k, b0, dist, pred, order, res) && count_lt(dist, INF) <= 1
            + relaxations && relaxations <= within_sum(
            g,
            relaxed_part(order, res.outcome),
            restored(dist, res.new_bound),
            b0,
        )
}

/// Runs the bounded prefix search with explicit `k` and `bound`. Returns
/// `entry_status` of the inputs; where that is 0, the result goes to
/// `result_out` and the counters to `stats`. On any other status it writes nothing.
pub fn sssp_spec_basecase_probe(
    n: u32,
    offsets: &[u32],
    targets: &[u32],
    weights: &[u64],
    start: u32,
    k: u32,
    bound: u64,
    dist: &mut Vec<u64>,
    pred: &mut Vec<i32>,
    result_out: &mut BaseCaseResult,
    stats: &mut SpecPhase1Stats,
) -> (status: i32)
    ensures
        status == entry_status(
            n,
            offsets,
            targets,
            weights,
            start,
            old(dist)@.len(),
            old(pred)@.len(),
        ),
        status != STATUS_OK ==> {
            &&& final(dist)@ == old(dist)@
            &&& final(pred)@ == old(pred)@
            &&& *final(result_out) == *old(result_out)
            &&& *final(stats) == *old(stats)
        },
        status == STATUS_OK ==> {
            &&& basecase_ran(
                graph_of(n, offsets, targets, weights),
                start as int,
                k,
                bound,
                final(dist)@,
                final(pred)@,
                *final(result_out),
                final(stats).last_relaxations,
            )
            &&& *final(stats) == phase1_stats(*final(result_out), final(stats).last_relaxations)
            &&& final(stats).last_relaxations <= targets@.len()
        },
{
    let status = check_entry(n, offsets, targets, weights, start, dist.len(), pred.len());
    if status != STATUS_OK {
        return status;
    }
    let mut tmp: Vec<u32> = Vec::new();
    let mut relax: u64 = 0;
    let res = basecase_truncated(
        n,
        offsets,
        targets,
        weights,
        start,
        k,
        bound,
        dist,
        pred,
        &mut tmp,
        &mut relax,
    );
    *result_out = res;
    *stats = SpecPhase1Stats {
        last_outcome: res.outcome,
        last_bound: res.new_bound,
        last_collected: res.collected,
        last_relaxations: relax,
    };
    STATUS_OK
}

/// The bounded prefix engine: one bounded prefix search from `source` with
/// the budget and bound of `cfg`. The result record reports the size of the
/// collected set as settled and the outcome in its error code.
pub fn sssp_run_spec_phase1(
    n: u32,
    offsets: &[u32],
    targets: &[u32],
    weights: &[u64],
    source: u32,
    out_dist: &mut Vec<u64>,
    out_pred: &mut Vec<i32>,
    info: &mut SsspResultInfo,
    cfg: &BasecaseConfig,
    stats: &mut SpecPhase1Stats,
) -> (status: i32)
    ensures
        status == entry_status(
            n,
            offsets,
            targets,
            weights,
            source,
            old(out_dist)@.len(),
            old(out_pred)@.len(),
        ),
        status != STATUS_OK ==> {
            &&& final(out_dist)@ == old(out_dist)@
            &&& final(out_pred)@ == old(out_pred)@
            &&& *final(info) == *old(info)
            &&& *final(stats) == *old(stats)
        },
        status == STATUS_OK ==> {
            &&& basecase_ran(
                graph_of(n, offsets, targets, weights),
                source as int,
                at_least_one(cfg.k),
                cfg.bound,
                final(out_dist)@,
                final(out_pred)@,
                BaseCaseResult {
                    outcome: final(stats).last_outcome,
                    new_bound: final(stats).last_bound,
                    collected: final(stats).last_collected,
                },
                final(stats).last_relaxations,
            )
            &&& final(info).relaxations == final(stats).last_relaxations
            &&& final(info).light_relaxations == 0
            &&& final(info).heavy_relaxations == 0
            &&& final(info).settled == final(stats).last_collected
            &&& final(info).error_code == final(stats).last_outcome
        },
{
    let status = check_entry(n, offsets, targets, weights, source, out_dist.len(), out_pred.len());
    if status != STATUS_OK {
        return status;
    }
    let k: u32 = clamp_k(cfg.k);
    let mut scratch: Vec<u32> = Vec::new();
    let mut relax: u64 = 0;
    let res = basecase_truncated(
        n,
        offsets,
        targets,
        weights,
        source,
        k,
        cfg.bound,
        out_dist,
        out_pred,
        &mut scratch,
        &mut relax,
    );
    *stats = SpecPhase1Stats {
        last_outcome: res.outcome,
        last_bound: res.new_bound,
        last_collected: res.collected,
        last_relaxations: relax,
    };
    *info = SsspResultInfo {
        relaxations: relax,
        light_relaxations: 0,
        heavy_relaxations: 0,
        settled: res.collected,
        error_code: res.outcome,
    };
    STATUS_OK
}

} // verus!

//! The boundary chain: a search cut into segments. Each segment settles at
//! most `k + 1` vertices, closes at the distance of the last one, and
//! collects the vertices strictly below that bound; the vertices at the
//! bound go back to the heap for the next segment.

use vstd::prelude::*;
use vstd::multiset::Multiset;
use crate::graph::{
    Csr,
    Graph,
    INF,
    STATUS_OK,
    graph_of,
    entry_status,
    check_entry,
    lemma_walk_len_nonneg,
};
use crate::basecase::{at_least_one, clamp_k};
use crate::scaffold::BoundaryChain;
use crate::stats::{SsspResultInfo, SpecBoundaryChainStats, SpecInvariantStats};
use crate::heap::{HeapItem, MinHeap};
use crate::frontier::{
    SearchView,
    inv,
    entry,
    lemma_start,
    lemma_complete,
    lemma_complete_unbounded,
    after_close,
    after_close_cut,
    after_reopen,
    lemma_close,
    lemma_close_cut,
    lemma_reopen,
    lemma_distinct_bounded,
};
use crate::search::{run_search, seed_search, marks_within};
use crate::pivot::{grow_k, next_k};

verus! {

/// One segment of a chain.
#[derive(Clone, Copy, Debug, PartialEq, Eq, Structural)]
pub struct ChainSegment {
    /// The distance at which the segment closed; `INF` where it ran to the end.
    pub bound: u64,
    /// The budget it ran with.
    pub k_used: u32,
    /// Vertices collected: those settled strictly below the bound.
    pub size: u32,
    /// Whether the budget was spent.
    pub truncated: bool,
    /// Relaxations accepted within the segment.
    pub relaxations: u64,
}

/// What a chain leaves beside distances and predecessors.
pub struct ChainRun {
    /// The segments emitted, in order.
    pub segments: Vec<ChainSegment>,
    /// Segment attempts made; one more than the segments where the last attempt collected nothing.
    pub attempts: u32,
    /// Vertices collected over all segments.
    pub total_collected: u32,
    /// Marks the collected vertices.
    pub visited: Vec<bool>,
}

/// Number of marks set.
pub open spec fn count_true(s: Seq<bool>) -> nat
    decreases s.len(),
{
    if s.len() == 0 {
        0
    } else {
        count_true(s.drop_last()) + if s.last() {
            1nat
        } else {
            0nat
        }
    }
}

/// No more marks are set than there are.
pub proof fn lemma_count_true_le(s: Seq<bool>)
    ensures
        count_true(s) <= s.len(),
    decreases s.len(),
{
    if s.len() > 0 {
        lemma_count_true_le(s.drop_last());
    }
}

/// Where no mark is set, the count is 0.
pub proof fn lemma_count_true_none(s: Seq<bool>)
    requires
        forall|i: int| 0 <= i < s.len() ==> !s[i],
    ensures
        count_true(s) == 0,
    decreases s.len(),
{
    if s.len() > 0 {
        lemma_count_true_none(s.drop_last());
    }
}

/// Where a mark is set, the count is not 0.
pub proof fn lemma_count_true_some(s: Seq<bool>, i: int)
    requires
        0 <= i < s.len(),
        s[i],
    ensures
        count_true(s) >= 1,
    decreases s.len(),
{
    if i < s.len() - 1 {
        lemma_count_true_some(s.drop_last(), i);
    }
}

/// Setting a mark that was not set adds one to the count.
pub proof fn lemma_count_true_set(s: Seq<bool>, i: int)
    requires
        0 <= i < s.len(),
        !s[i],
    ensures
        count_true(s.update(i, true)) == count_true(s) + 1,
    decreases s.len(),
{
    let t = s.update(i, true);
    if i == s.len() - 1 {
        assert(t.drop_last() =~= s.drop_last());
    } else {
        lemma_count_true_set(s.drop_last(), i);
        assert(t.drop_last() =~= s.drop_last().update(i, true));
    }
}

/// Sum of the sizes of the segments.
pub open spec fn total_size(segs: Seq<ChainSegment>) -> nat
    decreases segs.len(),
{
    if segs.len() == 0 {
        0
    } else {
        total_size(segs.drop_last()) + segs.last().size as nat
    }
}

/// The bound of the last segment, 0 where there is none.
pub open spec fn last_bound(segs: Seq<ChainSegment>) -> u64 {
    if segs.len() == 0 {
        0
    } else {
        segs.last().bound
    }
}

/// The segments of a chain as such: every one collected something within
/// its budget, the bounds rise strictly from above 0, only the last
/// segment may have run to the end, and the budgets follow the growth rule.
pub open spec fn segments_ok(segs: Seq<ChainSegment>, n: u32, m: nat, k0: u32, grow: bool) -> bool {
    &&& forall|i: int|
        0 <= i < segs.len() ==> {
            let g = #[trigger] segs[i];
            &&& 1 <= g.size <= n
            &&& g.truncated ==> g.size <= g.k_used
            &&& g.bound > 0
            &&& g.truncated <==> g.bound < INF
            &&& g.relaxations <= m
            &&& i + 1 < segs.len() ==> g.truncated
        }
    &&& forall|i: int, j: int|
        0 <= i < j < segs.len() ==> (#[trigger] segs[i]).bound < (#[trigger] segs[j]).bound
    &&& segs.len() > 0 ==> segs[0].k_used == k0
    &&& forall|i: int, j: int|
        0 <= i && j == i + 1 && j < segs.len() ==> (#[trigger] segs[j]).k_used == if grow && (
        #[trigger] segs[i]).size >= segs[i].k_used {
            grow_k(segs[i].k_used, n)
        } else {
            segs[i].k_used
        }
}

/// What the arrays and marks of a chain say, given the bound `b` of its
/// last segment (0 where no segment was emitted): the source is at 0; the
/// marked vertices are those below `b`, each at its distance with a tight
/// predecessor; no other vertex is nearer than `b`; every finite entry is
/// the length of a walk, with a predecessor that gives it; and an
/// unreached vertex has no predecessor.
pub open spec fn chain_facts(
    g: Graph,
    s: int,
    dist: Seq<u64>,
    pred: Seq<i32>,
    visited: Seq<bool>,
    b: u64,
) -> bool {
    &&& dist.len() == g.n
    &&& pred.len() == g.n
    &&& visited.len() == g.n
    &&& forall|x: int| 0 <= x < g.n ==> ((#[trigger] visited[x]) <==> dist[x] < b)
    &&& forall|x: int|
        0 <= x < g.n && (#[trigger] visited[x]) ==> {
            &&& g.is_dist(s, x, dist[x])
            &&& x != s ==> g.tight_at(dist, pred[x] as int, x)
            &&& x == s ==> pred[x] == -1
        }
    &&& forall|x: int| 0 <= x < g.n && !(#[trigger] visited[x]) ==> g.no_walk_below(s, x, b as int)
    &&& forall|x: int|
        0 <= x < g.n && (#[trigger] dist[x]) < INF ==> g.walk_of_len(s, x, dist[x] as int)
    &&& b == INF ==> g.is_solution(s, dist) && g.pred_tight(s, dist, pred)
    &&& 0 <= s < g.n
    &&& dist[s] == 0
    &&& forall|x: int| 0 <= x < g.n ==> #[trigger] pred_sound(g, s, dist, pred, x)
}

/// The predecessor of `x` fits its entry: none for the source and for an
/// unreached vertex, else a vertex with an edge to `x` that gives the entry of `x`.
pub open spec fn pred_sound(g: Graph, s: int, dist: Seq<u64>, pred: Seq<i32>, x: int) -> bool {
    if x == s || dist[x] == INF {
        pred[x] == -1
    } else {
        g.tight_at(dist, pred[x] as int, x)
    }
}

/// Number of entries that are `b`.
pub open spec fn count_eq(dist: Seq<u64>, b: u64) -> nat
    decreases dist.len(),
{
    if dist.len() == 0 {
        0
    } else {
        count_eq(dist.drop_last(), b) + if dist.last() == b {
            1nat
        } else {
            0nat
        }
    }
}

/// Writing `b` over an entry that is not `b` adds one to the count.
pub proof fn lemma_count_eq_set(dist: Seq<u64>, v: int, b: u64)
    requires
        0 <= v < dist.len(),
        dist[v] != b,
    ensures
        count_eq(dist.update(v, b), b) == count_eq(dist, b) + 1,
    decreases dist.len(),
{
    let d2 = dist.update(v, b);
    if v == dist.len() - 1 {
        assert(d2.drop_last() =~= dist.drop_last());
    } else {
        lemma_count_eq_set(dist.drop_last(), v, b);
        assert(d2.drop_last() =~= dist.drop_last().update(v, b));
    }
}

/// Vertices listed once each, all with the entry `b`: at least so many entries are `b`.
pub proof fn lemma_count_eq_listed(order: Seq<u32>, dist: Seq<u64>, b: u64)
    requires
        order.no_duplicates(),
        forall|i: int| 0 <= i < order.len() ==> (#[trigger] order[i]) < dist.len() && dist[order[i] as int] == b,
    ensures
        count_eq(dist, b) >= order.len(),
    decreases order.len(),
{
    if order.len() > 0 {
        let u = order.last() as int;
        let other: u64 = if b == 0 { 1 } else { 0 };
        let d1 = dist.update(u, other);
        let rest = order.drop_last();
        assert(order[order.len() - 1] as int == u);
        assert forall|i: int| 0 <= i < rest.len() implies (#[trigger] rest[i]) < d1.len()
            && d1[rest[i] as int] == b by {
            assert(rest[i] == order[i]);
            assert(order[i] != order[order.len() - 1]);
        }
        lemma_count_eq_listed(rest, d1, b);
        lemma_count_eq_set(d1, u, b);
        assert(d1.update(u, b) =~= dist);
    }
}

/// The budget of the attempt that follows these segments.
pub open spec fn next_budget(segs: Seq<ChainSegment>, n: u32, k0: u32, grow: bool) -> u32 {
    if segs.len() == 0 {
        k0
    } else if grow && segs.last().size >= segs.last().k_used {
        grow_k(segs.last().k_used, n)
    } else {
        segs.last().k_used
    }
}

/// An attempt with this budget collects nothing: at some distance `b`, not
/// below `low`, lie more vertices than the budget, and no vertex that is
/// not collected is nearer than `b`.
pub open spec fn stalled(
    g: Graph,
    s: int,
    dist: Seq<u64>,
    visited: Seq<bool>,
    budget: u32,
    low: u64,
) -> bool {
    exists|b: u64|
        low <= b < INF && #[trigger] count_eq(dist, b) > budget && forall|x: int|
            0 <= x < g.n && !(#[trigger] visited[x]) ==> g.no_walk_below(s, x, b as int)
}

/// Number of entries below `b`.
pub open spec fn count_lt(dist: Seq<u64>, b: u64) -> nat
    decreases dist.len(),
{
    if dist.len() == 0 {
        0
    } else {
        count_lt(dist.drop_last(), b) + if dist.last() < b {
            1nat
        } else {
            0nat
        }
    }
}

/// Arrays that agree on which entries lie below `b` have as many such entries.
pub proof fn lemma_count_lt_same(d1: Seq<u64>, d2: Seq<u64>, b: u64)
    requires
        d1.len() == d2.len(),
        forall|x: int| 0 <= x < d1.len() ==> ((#[trigger] d1[x]) < b <==> d2[x] < b),
    ensures
        count_lt(d1, b) == count_lt(d2, b),
    decreases d1.len(),
{
    if d1.len() > 0 {
        let a1 = d1.drop_last();
        let a2 = d2.drop_last();
        assert forall|x: int| 0 <= x < a1.len() implies ((#[trigger] a1[x]) < b <==> a2[x] < b) by {
            assert(a1[x] == d1[x]);
            assert(a2[x] == d2[x]);
        }
        lemma_count_lt_same(a1, a2, b);
        assert(d1[d1.len() - 1] < b <==> d2[d1.len() - 1] < b);
    }
}

/// No more entries are below `b` than there are entries.
pub proof fn lemma_count_lt_le(dist: Seq<u64>, b: u64)
    ensures
        count_lt(dist, b) <= dist.len(),
    decreases dist.len(),
{
    if dist.len() > 0 {
        lemma_count_lt_le(dist.drop_last(), b);
    }
}

/// Lowering one entry reaches at most one vertex more.
pub proof fn lemma_count_lt_update(dist: Seq<u64>, v: int, nd: u64, b: u64)
    requires
        0 <= v < dist.len(),
        nd <= dist[v],
    ensures
        count_lt(dist, b) <= count_lt(dist.update(v, nd), b) <= count_lt(dist, b) + 1,
        dist[v] < b ==> count_lt(dist.update(v, nd), b) == count_lt(dist, b),
    decreases dist.len(),
{
    let d2 = dist.update(v, nd);
    if v == dist.len() - 1 {
        assert(d2.drop_last() =~= dist.drop_last());
    } else {
        lemma_count_lt_update(dist.drop_last(), v, nd, b);
        assert(d2.drop_last() =~= dist.drop_last().update(v, nd));
    }
}

/// Where every entry of `d2` below `b` is one of `d1` too, `d2` has no more of them.
pub proof fn lemma_count_lt_fewer(d1: Seq<u64>, d2: Seq<u64>, b: u64)
    requires
        d1.len() == d2.len(),
        forall|x: int| 0 <= x < d2.len() && (#[trigger] d2[x]) < b ==> d1[x] < b,
    ensures
        count_lt(d2, b) <= count_lt(d1, b),
    decreases d1.len(),
{
    if d1.len() > 0 {
        let a1 = d1.drop_last();
        let a2 = d2.drop_last();
        assert forall|x: int| 0 <= x < a2.len() && (#[trigger] a2[x]) < b implies a1[x] < b by {
            assert(d2[x] < b);
        }
        lemma_count_lt_fewer(a1, a2, b);
    }
}

/// Where nothing but `s` is reached, at most one entry is finite.
pub proof fn lemma_count_lt_single(dist: Seq<u64>, s: int)
    requires
        0 <= s < dist.len(),
        forall|x: int| 0 <= x < dist.len() && x != s ==> dist[x] == INF,
    ensures
        count_lt(dist, INF) <= 1,
{
    let none = Seq::new(dist.len(), |i: int| INF);
    let marks = Seq::new(dist.len(), |i: int| false);
    lemma_count_true_none(marks);
    lemma_count_marks(marks, none, INF);
    lemma_count_lt_update(none, s, dist[s], INF);
    assert(none.update(s, dist[s]) =~= dist);
}

/// Where every entry below `b` is marked, no more entries are below `b` than are marked.
pub proof fn lemma_reached_marked(marks: Seq<bool>, dist: Seq<u64>, b: u64)
    requires
        marks.len() == dist.len(),
        forall|x: int| 0 <= x < dist.len() && (#[trigger] dist[x]) < b ==> marks[x],
    ensures
        count_lt(dist, b) <= count_true(marks),
    decreases dist.len(),
{
    if dist.len() > 0 {
        let v = marks.drop_last();
        let d = dist.drop_last();
        assert forall|x: int| 0 <= x < d.len() && (#[trigger] d[x]) < b implies v[x] by {
            assert(dist[x] < b);
        }
        lemma_reached_marked(v, d, b);
    }
}

/// Writing a mark adds at most one to the count.
pub proof fn lemma_count_true_mark(s: Seq<bool>, i: int)
    requires
        0 <= i < s.len(),
    ensures
        count_true(s) <= count_true(s.update(i, true)) <= count_true(s) + 1,
{
    if s[i] {
        assert(s.update(i, true) =~= s);
    } else {
        lemma_count_true_set(s, i);
    }
}

/// Where the marks are the entries below `b`, there are as many of each.
pub proof fn lemma_count_marks(visited: Seq<bool>, dist: Seq<u64>, b: u64)
    requires
        visited.len() == dist.len(),
        forall|x: int| 0 <= x < dist.len() ==> ((#[trigger] visited[x]) <==> dist[x] < b),
    ensures
        count_true(visited) == count_lt(dist, b),
    decreases dist.len(),
{
    if dist.len() > 0 {
        let v = visited.drop_last();
        let d = dist.drop_last();
        assert forall|x: int| 0 <= x < d.len() implies ((#[trigger] v[x]) <==> d[x] < b) by {
            assert(v[x] == visited[x]);
            assert(d[x] == dist[x]);
        }
        lemma_count_marks(v, d, b);
        assert(visited[dist.len() - 1] <==> dist[dist.len() - 1] < b);
    }
}

/// Segment `i` and those before it collected as many vertices as lie below its bound.
pub open spec fn band_ok(segs: Seq<ChainSegment>, dist: Seq<u64>, i: int) -> bool {
    total_size(segs.take(i + 1)) == count_lt(dist, segs[i].bound)
}

/// Every segment collected the vertices between the bound before it and
/// its own: as many as the distances say.
pub open spec fn bands_ok(segs: Seq<ChainSegment>, dist: Seq<u64>) -> bool {
    forall|i: int| 0 <= i < segs.len() ==> #[trigger] band_ok(segs, dist, i)
}

/// A vertex lies in the band of one segment only: the bands of a chain are disjoint.
pub proof fn lemma_bands_disjoint(segs: Seq<ChainSegment>, n: u32, m: nat, k0: u32, grow: bool, i: int, j: int, d: u64)
    requires
        segments_ok(segs, n, m, k0, grow),
        0 <= i < j < segs.len(),
        d < segs[i].bound,
    ensures
        !(segs[j - 1].bound <= d && d < segs[j].bound),
{
    if i < j - 1 {
        assert(segs[i].bound < segs[j - 1].bound);
    }
}

/// What `run_chain` leaves: segments that follow the rules of a chain,
/// arrays and marks that fit their last bound, and as many attempts as
/// segments, or one more where the last attempt collected nothing because
/// more vertices than its budget lie at one distance.
pub open spec fn chain_post(
    g: Graph,
    s: int,
    k0: u32,
    seg_cap: u32,
    target_total: u32,
    grow: bool,
    dist: Seq<u64>,
    pred: Seq<i32>,
    run: ChainRun,
) -> bool {
    let segs = run.segments@;
    &&& segments_ok(segs, g.n as u32, g.m(), k0, grow)
    &&& segs.len() <= seg_cap
    &&& run.total_collected == total_size(segs)
    &&& run.total_collected == count_true(run.visited@)
    &&& run.total_collected <= g.n
    &&& chain_facts(g, s, dist, pred, run.visited@, last_bound(segs))
    &&& bands_ok(segs, dist)
    &&& run.attempts == segs.len() || run.attempts == segs.len() + 1
    &&& run.attempts == segs.len() + 1 ==> stalled(
        g,
        s,
        dist,
        run.visited@,
        next_budget(segs, g.n as u32, k0, grow),
        last_bound(segs),
    )
    &&& run.attempts == segs.len() ==> {
        ||| segs.len() == seg_cap
        ||| (target_total != 0 && run.total_collected >= target_total)
        ||| run.total_collected >= g.n
        ||| (segs.len() > 0 && !segs.last().truncated)
    }
}

/// The state between two segments.
pub open spec fn between(
    g: Graph,
    s: int,
    v: SearchView,
    visited: Seq<bool>,
    b: u64,
) -> bool {
    &&& inv(g, s, INF, v)
    &&& v.active == -1
    &&& v.order.len() == 0
    &&& visited.len() == g.n
    &&& forall|x: int| 0 <= x < g.n ==> ((#[trigger] visited[x]) <==> v.done.contains(x))
    &&& forall|x: int| v.base.contains(x) <==> v.done.contains(x)
    &&& forall|x: int| 0 <= x < g.n && (#[trigger] visited[x]) ==> v.dist[x] < b
    &&& forall|x: int| 0 <= x < g.n && !(#[trigger] visited[x]) ==> g.no_walk_below(s, x, b as int)
}

/// What the arrays say while a search runs or after it: the marked
/// vertices are done and below `b`, the others not nearer than `b`.
pub open spec fn during(g: Graph, s: int, v: SearchView, visited: Seq<bool>, b: u64) -> bool {
    &&& inv(g, s, INF, v)
    &&& visited.len() == g.n
    &&& forall|x: int| 0 <= x < g.n && (#[trigger] visited[x]) ==> v.done.contains(x) && v.dist[x] < b
    &&& forall|x: int| 0 <= x < g.n && !(#[trigger] visited[x]) ==> g.no_walk_below(s, x, b as int)
}

/// What the arrays of a chain say follows from the state of its search.
proof fn lemma_facts(g: Graph, s: int, v: SearchView, visited: Seq<bool>, b: u64)
    requires
        during(g, s, v, visited, b),
        b < INF || (v.active == -1 && v.heap.len() == 0 && forall|x: int|
            0 <= x < g.n ==> ((#[trigger] visited[x]) <==> v.done.contains(x))),
    ensures
        chain_facts(g, s, v.dist, v.pred, visited, b),
{
    assert forall|x: int| 0 <= x < g.n && (#[trigger] v.dist[x]) < INF implies g.walk_of_len(
        s,
        x,
        v.dist[x] as int,
    ) by {
        assert(g.walk_to(s, x, v.walks[x]));
    }
    assert forall|x: int| 0 <= x < g.n implies ((#[trigger] visited[x]) <==> v.dist[x] < b) by {
        if !visited[x] && v.dist[x] < b {
            assert(g.walk_to(s, x, v.walks[x]));
            assert(g.no_walk_below(s, x, b as int));
            if b == INF {
            }
        }
    }
    assert forall|x: int| 0 <= x < g.n && (#[trigger] visited[x]) implies {
        &&& g.is_dist(s, x, v.dist[x])
        &&& x != s ==> g.tight_at(v.dist, v.pred[x] as int, x)
        &&& x == s ==> v.pred[x] == -1
    } by {
        assert(v.done.contains(x));
        assert(g.walk_to(s, x, v.walks[x]));
    }
    if b == INF {
        lemma_complete(g, s, INF, v);
        lemma_complete_unbounded(g, s, v.dist);
    }
    assert forall|x: int| 0 <= x < g.n implies #[trigger] pred_sound(g, s, v.dist, v.pred, x) by {
        if x != s && v.dist[x] < INF {
            assert(g.tight_at(v.dist, v.pred[x] as int, x));
        }
    }
}

/// Where no entry of `order` is counted as below `b`, none is.
pub proof fn lemma_count_below_none(order: Seq<u32>, dist: Seq<u64>, b: u64)
    requires
        count_below(order, dist, b) == 0,
    ensures
        forall|t: int| 0 <= t < order.len() ==> dist[#[trigger] order[t] as int] >= b,
    decreases order.len(),
{
    if order.len() > 0 {
        let rest = order.drop_last();
        lemma_count_below_none(rest, dist, b);
        assert forall|t: int| 0 <= t < order.len() implies dist[#[trigger] order[t] as int] >= b by {
            if t < rest.len() {
                assert(rest[t] == order[t]);
            }
        }
    }
}

/// Number of entries of `order` whose distance is below `b`.
pub open spec fn count_below(order: Seq<u32>, dist: Seq<u64>, b: u64) -> nat
    decreases order.len(),
{
    if order.len() == 0 {
        0
    } else {
        count_below(order.drop_last(), dist, b) + if dist[order.last() as int] < b {
            1nat
        } else {
            0nat
        }
    }
}

/// No more entries lie below the bound than there are.
pub proof fn lemma_count_below_le(order: Seq<u32>, dist: Seq<u64>, b: u64)
    ensures
        count_below(order, dist, b) <= order.len(),
    decreases order.len(),
{
    if order.len() > 0 {
        lemma_count_below_le(order.drop_last(), dist, b);
    }
}

/// Where some entry is below `b`, the count is not 0.
pub proof fn lemma_count_below_some(order: Seq<u32>, dist: Seq<u64>, b: u64)
    requires
        count_below(order, dist, b) > 0,
    ensures
        exists|t: int| 0 <= t < order.len() && dist[#[trigger] order[t] as int] < b,
    decreases order.len(),
{
    if order.len() > 0 {
        if dist[order.last() as int] < b {
            assert(order[order.len() - 1] == order.last());
        } else {
            lemma_count_below_some(order.drop_last(), dist, b);
            let t = choose|t: int|
                0 <= t < order.drop_last().len() && dist[#[trigger] order.drop_last()[t] as int] < b;
            assert(order[t] == order.drop_last()[t]);
        }
    }
}

/// Vertex `x` is an entry of `order`.
pub open spec fn listed(order: Seq<u32>, x: int) -> bool {
    order.contains(x as u32)
}

/// The done set `now` is `before` without the vertices of `gone` at or above `bound`.
pub open spec fn still_done(
    n: nat,
    now: Set<int>,
    before: Set<int>,
    dist: Seq<u64>,
    bound: u64,
    gone: Seq<u32>,
) -> bool {
    forall|x: int| 0 <= x < n ==> #[trigger] kept(now, before, dist, bound, gone, x)
}

/// Vertex `x` is in `now` where it was in `before`, unless it is a vertex
/// of `gone` at or above `bound`.
pub open spec fn kept(
    now: Set<int>,
    before: Set<int>,
    dist: Seq<u64>,
    bound: u64,
    gone: Seq<u32>,
    x: int,
) -> bool {
    now.contains(x) <==> (before.contains(x) && !(dist[x] >= bound && listed(gone, x)))
}

/// Taking up one more vertex of the order keeps the account of the done set.
proof fn lemma_still_done_step(
    n: nat,
    now: Set<int>,
    next: Set<int>,
    before: Set<int>,
    dist: Seq<u64>,
    bound: u64,
    order: Seq<u32>,
    i: int,
)
    requires
        0 <= i < order.len(),
        order.no_duplicates(),
        order[i] < n <= u32::MAX,
        still_done(n, now, before, dist, bound, order.take(i)),
        before.contains(order[i] as int),
        forall|x: int| 0 <= x < n && x != order[i] as int ==> (next.contains(x) <==> now.contains(x)),
        next.contains(order[i] as int) <==> dist[order[i] as int] < bound,
    ensures
        still_done(n, next, before, dist, bound, order.take(i + 1)),
        !listed(order.take(i), order[i] as int),
        now.contains(order[i] as int),
{
    let ta = order.take(i);
    let tb = order.take(i + 1);
    let u = order[i];
    assert(!ta.contains(u)) by {
        if ta.contains(u) {
            let t = choose|t: int| 0 <= t < ta.len() && ta[t] == u;
            assert(order[t] == order[i]);
        }
    }
    assert(!listed(ta, u as int));
    assert(tb[i] == u);
    assert(listed(tb, u as int));
    assert(kept(now, before, dist, bound, ta, u as int));
    assert forall|x: int| 0 <= x < n implies #[trigger] kept(next, before, dist, bound, tb, x) by {
        assert(kept(now, before, dist, bound, ta, x));
        if x != u as int {
            if tb.contains(x as u32) {
                let t = choose|t: int| 0 <= t < tb.len() && tb[t] == x as u32;
                assert(t != i);
                assert(ta[t] == x as u32);
            }
            if ta.contains(x as u32) {
                let t = choose|t: int| 0 <= t < ta.len() && ta[t] == x as u32;
                assert(tb[t] == x as u32);
            }
            assert(listed(tb, x) <==> listed(ta, x));
        }
    }
}

/// An entry of a list without repeats is not among the entries before it.
proof fn lemma_fresh_entry(order: Seq<u32>, i: int)
    requires
        0 <= i < order.len(),
        order.no_duplicates(),
    ensures
        !listed(order.take(i), order[i] as int),
{
    let ta = order.take(i);
    if ta.contains(order[i]) {
        let t = choose|t: int| 0 <= t < ta.len() && ta[t] == order[i];
        assert(order[t] == order[i]);
    }
}

/// A longer prefix lists one vertex more.
proof fn lemma_listed_step(order: Seq<u32>, i: int, n: nat)
    requires
        0 <= i < order.len(),
        n <= u32::MAX,
    ensures
        forall|x: int|
            0 <= x < n ==> (#[trigger] listed(order.take(i + 1), x) <==> (listed(order.take(i), x)
                || x == order[i] as int)),
{
    let ta = order.take(i);
    let tb = order.take(i + 1);
    assert forall|x: int| 0 <= x < n implies (#[trigger] listed(tb, x) <==> (listed(ta, x) || x
        == order[i] as int)) by {
        if tb.contains(x as u32) {
            let t = choose|t: int| 0 <= t < tb.len() && tb[t] == x as u32;
            if t != i {
                assert(ta[t] == x as u32);
            }
        }
        if ta.contains(x as u32) {
            let t = choose|t: int| 0 <= t < ta.len() && ta[t] == x as u32;
            assert(tb[t] == x as u32);
        }
        if x == order[i] as int {
            assert(tb[i] == x as u32);
        }
    }
}

/// How a search that spent its budget stands: the last vertex settled is
/// active with no edge relaxed, and nothing outside the done set, nor that
/// vertex, is nearer than the floor.
pub open spec fn cut_state(g: Graph, s: int, v: SearchView) -> bool {
    &&& v.active >= 0
    &&& v.upto == g.off[v.active]
    &&& forall|p: Seq<int>, y: int|
        (!v.done.contains(y) || y == v.active) && #[trigger] g.walk_to(s, y, p) ==> v.floor
            <= g.walk_len(p)
}

/// After a segment that spent its budget is closed and its vertices are
/// marked or handed back, the state is one between two segments.
proof fn lemma_closed_cut(
    g: Graph,
    s: int,
    v1: SearchView,
    vc: SearchView,
    visited: Seq<bool>,
    vis0: Seq<bool>,
    bound: u64,
    b0: u64,
)
    requires
        during(g, s, v1, vis0, b0),
        cut_state(g, s, v1),
        bound == v1.floor,
        b0 <= bound,
        vis0.len() == g.n,
        visited.len() == g.n,
        forall|x: int| 0 <= x < g.n ==> ((#[trigger] vis0[x]) <==> v1.base.contains(x)),
        inv(g, s, INF, vc),
        vc.active == -1,
        vc.order.len() == 0,
        vc.dist == v1.dist,
        forall|x: int| vc.base.contains(x) <==> vc.done.contains(x),
        still_done(g.n, vc.done, after_close_cut(v1).done, v1.dist, bound, v1.order.drop_last()),
        forall|x: int|
            0 <= x < g.n ==> ((#[trigger] visited[x]) <==> (vis0[x] || (listed(
                v1.order.drop_last(),
                x,
            ) && v1.dist[x] < bound))),
    ensures
        between(g, s, vc, visited, bound),
{
    let u0 = v1.active;
    let pre = v1.order.drop_last();
    let len = v1.order.len();
    assert(v1.order.last() as int == u0);
    assert(v1.dist[u0] == bound);
    assert forall|x: int| 0 <= x < g.n implies ((#[trigger] visited[x]) <==> vc.done.contains(
        x,
    )) by {
        assert(kept(vc.done, after_close_cut(v1).done, v1.dist, bound, pre, x));
        if vis0[x] {
            assert(v1.base.contains(x));
            assert(v1.done.contains(x));
            assert(v1.dist[x] < b0);
            if listed(pre, x) {
                let t = choose|t: int| 0 <= t < pre.len() && pre[t] == x as u32;
                assert(v1.order[t] == x as u32);
                assert(!v1.base.contains(v1.order[t] as int));
            }
        }
        if listed(pre, x) {
            let t = choose|t: int| 0 <= t < pre.len() && pre[t] == x as u32;
            assert(v1.order[t] == x as u32);
            assert(v1.done.contains(v1.order[t] as int));
            assert(t != len - 1);
            assert(v1.order[t] != v1.order[len - 1]);
        }
        if vc.done.contains(x) {
            assert(v1.done.contains(x));
            if !v1.base.contains(x) {
                assert(v1.order.contains(x as u32));
                let t = choose|t: int| 0 <= t < v1.order.len() && v1.order[t] == x as u32;
                assert(t != len - 1);
                assert(pre[t] == x as u32);
                assert(listed(pre, x));
            }
        }
    }
    assert forall|x: int| 0 <= x < g.n && (#[trigger] visited[x]) implies vc.dist[x] < bound by {
        if vis0[x] {
            assert(v1.dist[x] < b0);
        }
    }
    assert forall|x: int| 0 <= x < g.n && !(#[trigger] visited[x]) implies g.no_walk_below(
        s,
        x,
        bound as int,
    ) by {
        if v1.done.contains(x) && x != u0 {
            assert(!vis0[x]);
            assert(!v1.base.contains(x));
            assert(v1.order.contains(x as u32));
            let t = choose|t: int| 0 <= t < v1.order.len() && v1.order[t] == x as u32;
            assert(t != len - 1);
            assert(pre[t] == x as u32);
            assert(listed(pre, x));
            assert(v1.dist[x] >= bound);
        } else {
            assert forall|p: Seq<int>| #[trigger] g.walk_to(s, x, p) implies bound <= g.walk_len(
                p,
            ) by {}
        }
    }
}

/// After a segment that ran to the end is closed and its vertices are
/// marked, the chain is complete.
proof fn lemma_closed_end(
    g: Graph,
    s: int,
    v1: SearchView,
    visited: Seq<bool>,
    vis0: Seq<bool>,
    b0: u64,
)
    requires
        during(g, s, v1, vis0, b0),
        v1.active == -1,
        v1.heap.len() == 0,
        vis0.len() == g.n,
        visited.len() == g.n,
        forall|x: int| 0 <= x < g.n ==> ((#[trigger] vis0[x]) <==> v1.base.contains(x)),
        forall|x: int|
            0 <= x < g.n ==> ((#[trigger] visited[x]) <==> (vis0[x] || (listed(v1.order, x)
                && v1.dist[x] < INF))),
    ensures
        chain_facts(g, s, v1.dist, v1.pred, visited, INF),
{
    lemma_complete(g, s, INF, v1);
    assert forall|x: int| 0 <= x < g.n implies ((#[trigger] visited[x]) <==> v1.done.contains(
        x,
    )) by {
        if vis0[x] {
            assert(v1.base.contains(x));
        }
        if listed(v1.order, x) {
            let t = choose|t: int| 0 <= t < v1.order.len() && v1.order[t] == x as u32;
            assert(v1.done.contains(v1.order[t] as int));
        }
        if v1.done.contains(x) && !v1.base.contains(x) {
            assert(v1.order.contains(x as u32));
            assert(listed(v1.order, x));
        }
    }
    assert(during(g, s, v1, visited, INF)) by {
        assert forall|x: int| 0 <= x < g.n && !(#[trigger] visited[x]) implies g.no_walk_below(
            s,
            x,
            INF as int,
        ) by {
            assert(v1.dist[x] == INF);
        }
    }
    lemma_facts(g, s, v1, visited, INF);
}

/// Closes a segment: marks the vertices of `order` below `bound`, counts
/// them into `total`, and hands the others back to the heap.
#[verifier::spinoff_prover]
#[verifier::rlimit(40)]
fn close_segment(
    g: &Csr,
    source: u32,
    dist: &Vec<u64>,
    visited: &mut Vec<bool>,
    heap: &mut MinHeap,
    order: &Vec<u32>,
    truncated: bool,
    bound: u64,
    total: &mut u32,
    Ghost(v1): Ghost<SearchView>,
    Ghost(b0): Ghost<u64>,
) -> (res: Ghost<SearchView>)
    requires
        during(g@, source as int, v1, old(visited)@, b0),
        forall|x: int| 0 <= x < g@.n ==> ((#[trigger] old(visited)@[x]) <==> v1.base.contains(x)),
        dist@ == v1.dist,
        order@ == v1.order,
        old(heap).wf(),
        old(heap).items() == v1.heap,
        old(heap).pushed() + order@.len() < u64::MAX,
        *old(total) == count_true(old(visited)@),
        truncated ==> cut_state(g@, source as int, v1) && bound == v1.floor,
        !truncated ==> v1.active == -1 && old(heap).size() == 0 && bound == INF,
    ensures
        res@.dist == v1.dist,
        res@.pred == v1.pred,
        final(heap).wf(),
        final(heap).items() == res@.heap,
        final(heap).pushed() <= old(heap).pushed() + order@.len(),
        *final(total) == count_true(final(visited)@),
        *final(total) == *old(total) + count_below(order@, dist@, bound),
        b0 <= bound,
        truncated ==> between(g@, source as int, res@, final(visited)@, bound),
        !truncated ==> chain_facts(g@, source as int, v1.dist, v1.pred, final(visited)@, INF),
{
    let ghost gg = g@;
    let ghost s = source as int;
    let ghost vis0 = visited@;
    let ghost t0 = *total;
    let len: usize = order.len();
    let ghost mut vc = v1;
    let mut stop: usize = len;
    proof {
        lemma_distinct_bounded(v1.order, gg.n);
        heap.lemma_size();
        lemma_count_true_le(visited@);
    }
    if truncated {
        let u0: u32 = order[len - 1];
        proof {
            lemma_close_cut(gg, s, INF, v1);
            vc = after_close_cut(v1);
            assert(gg.walk_to(s, u0 as int, v1.walks[u0 as int]));
            assert(!vis0[u0 as int]);
            assert(gg.no_walk_below(s, u0 as int, b0 as int));
            assert(order@.drop_last().len() == len - 1);
        }
        heap.push(HeapItem { dist: bound, node: u0 });
        stop = len - 1;
    } else {
        proof {
            lemma_close(gg, s, INF, v1);
            vc = after_close(v1);
        }
    }
    let ghost vc0 = vc;
    let mut i: usize = 0;
    proof {
        let none = order@.take(0);
        assert(none =~= Seq::<u32>::empty());
        assert(still_done(gg.n, vc.done, vc0.done, v1.dist, bound, none)) by {
            assert forall|x: int| 0 <= x < gg.n implies #[trigger] kept(
                vc.done,
                vc0.done,
                v1.dist,
                bound,
                none,
                x,
            ) by {
                assert(!listed(none, x));
            }
        }
        assert forall|x: int| 0 <= x < gg.n implies ((#[trigger] visited@[x]) <==> (vis0[x] || (
        listed(none, x) && v1.dist[x] < bound))) by {
            assert(!listed(none, x));
        }
        assert(count_below(none, dist@, bound) == 0);
    }
    while i < stop
        invariant
            gg == g@,
            s == source as int,
            i <= stop <= len,
            len == order@.len(),
            len <= gg.n,
            truncated ==> stop == len - 1,
            !truncated ==> stop == len,
            order@ == v1.order,
            dist@ == v1.dist,
            inv(gg, s, INF, v1),
            inv(gg, s, INF, vc),
            vc.active == -1,
            vc.order.len() == 0,
            vc.dist == v1.dist,
            vc.pred == v1.pred,
            truncated ==> vc.floor == bound && v1.active >= 0,
            !truncated ==> bound == INF && v1.active == -1,
            vc0 == if truncated { after_close_cut(v1) } else { after_close(v1) },
            vis0.len() == gg.n,
            forall|x: int| 0 <= x < gg.n ==> ((#[trigger] vis0[x]) <==> v1.base.contains(x)),
            heap.wf(),
            heap.items() == vc.heap,
            heap.pushed() <= old(heap).pushed() + (if truncated { 1int } else { 0int }) + i,
            old(heap).pushed() + len < u64::MAX,
            visited@.len() == gg.n,
            forall|x: int| vc.base.contains(x) <==> vc.done.contains(x),
            still_done(gg.n, vc.done, vc0.done, v1.dist, bound, order@.take(i as int)),
            forall|x: int|
                0 <= x < gg.n ==> ((#[trigger] visited@[x]) <==> (vis0[x] || (listed(
                    order@.take(i as int),
                    x,
                ) && v1.dist[x] < bound))),
            *total == count_true(visited@),
            *total == t0 + count_below(order@.take(i as int), dist@, bound),
            *total <= gg.n,
        decreases stop - i,
    {
        let u: u32 = order[i];
        let ui: usize = u as usize;
        let ghost ta = order@.take(i as int);
        let ghost tb = order@.take(i + 1);
        proof {
            assert(tb.drop_last() =~= ta);
            assert(tb.last() == u);
            assert(v1.order[i as int] == u);
            assert(v1.done.contains(u as int));
            assert(!v1.base.contains(u as int));
            if truncated {
                assert(order@[len - 1] == v1.active as u32);
                assert(u as int != v1.active);
            }
            assert(vc0.done.contains(u as int));
            assert(!vis0[u as int]);
            lemma_fresh_entry(order@, i as int);
            assert(kept(vc.done, vc0.done, v1.dist, bound, ta, u as int));
            assert(vc.done.contains(u as int));
        }
        if dist[ui] < bound {
            proof {
                lemma_still_done_step(
                    gg.n,
                    vc.done,
                    vc.done,
                    vc0.done,
                    v1.dist,
                    bound,
                    order@,
                    i as int,
                );
                assert(!visited@[u as int]);
                lemma_count_true_set(visited@, u as int);
                lemma_count_true_le(visited@.update(u as int, true));
            }
            visited[ui] = true;
            *total = *total + 1;
        } else {
            proof {
                assert(v1.dist[u as int] <= v1.floor);
                let vn = after_reopen(vc, u as int);
                lemma_still_done_step(
                    gg.n,
                    vc.done,
                    vn.done,
                    vc0.done,
                    v1.dist,
                    bound,
                    order@,
                    i as int,
                );
                lemma_reopen(gg, s, INF, vc, u as int);
                vc = vn;
            }
            heap.push(HeapItem { dist: bound, node: u });
        }
        proof {
            lemma_listed_step(order@, i as int, gg.n);
        }
        i += 1;
    }
    proof {
        assert(order@.take(len as int) =~= order@);
        if truncated {
            assert(order@.take(stop as int) =~= order@.drop_last());
            lemma_closed_cut(gg, s, v1, vc, visited@, vis0, bound, b0);
        } else {
            lemma_closed_end(gg, s, v1, visited@, vis0, b0);
        }
    }
    Ghost(vc)
}

/// A search that starts between two segments leaves every entry on its
/// side of each bound up to the last.
proof fn lemma_bands_stay(
    g: Graph,
    s: int,
    va: SearchView,
    v1: SearchView,
    visited: Seq<bool>,
    lastb: u64,
    segs: Seq<ChainSegment>,
)
    requires
        between(g, s, va, visited, lastb),
        during(g, s, v1, visited, lastb),
        forall|x: int| 0 <= x < g.n ==> v1.dist[x] <= #[trigger] va.dist[x],
        bands_ok(segs, va.dist),
        forall|i: int| 0 <= i < segs.len() ==> (#[trigger] segs[i]).bound <= lastb,
    ensures
        bands_ok(segs, v1.dist),
{
    assert forall|i: int| 0 <= i < segs.len() implies #[trigger] band_ok(segs, v1.dist, i) by {
        let b = segs[i].bound;
        assert(band_ok(segs, va.dist, i));
        assert forall|x: int| 0 <= x < v1.dist.len() implies ((#[trigger] v1.dist[x]) < b
            <==> va.dist[x] < b) by {
            if visited[x] {
                assert(va.done.contains(x));
                assert(g.no_walk_below(s, x, va.dist[x] as int));
                assert(v1.dist[x] <= va.dist[x]);
                assert(g.walk_to(s, x, v1.walks[x]));
            } else {
                assert(g.no_walk_below(s, x, lastb as int));
                if v1.dist[x] < INF {
                    assert(g.walk_to(s, x, v1.walks[x]));
                }
                if va.dist[x] < INF {
                    assert(g.walk_to(s, x, va.walks[x]));
                }
            }
        }
        lemma_count_lt_same(v1.dist, va.dist, b);
    }
}

/// The bands stay right when a segment is added that collected the entries below its bound.
proof fn lemma_bands_push(
    segs: Seq<ChainSegment>,
    seg: ChainSegment,
    dist: Seq<u64>,
    visited: Seq<bool>,
)
    requires
        bands_ok(segs, dist),
        visited.len() == dist.len(),
        forall|x: int| 0 <= x < dist.len() ==> ((#[trigger] visited[x]) <==> dist[x] < seg.bound),
        total_size(segs.push(seg)) == count_true(visited),
    ensures
        bands_ok(segs.push(seg), dist),
{
    let t = segs.push(seg);
    assert forall|i: int| 0 <= i < t.len() implies #[trigger] band_ok(t, dist, i) by {
        if i < segs.len() {
            assert(band_ok(segs, dist, i));
            assert(t.take(i + 1) =~= segs.take(i + 1));
            assert(t[i] == segs[i]);
        } else {
            assert(t.take(i + 1) =~= t);
            lemma_count_marks(visited, dist, seg.bound);
        }
    }
}

/// A chain stays one when a segment is added whose bound lies above the
/// last and whose budget follows the growth rule.
proof fn lemma_segments_push(
    segs: Seq<ChainSegment>,
    seg: ChainSegment,
    n: u32,
    m: nat,
    k0: u32,
    grow: bool,
)
    requires
        segments_ok(segs, n, m, k0, grow),
        forall|i: int| 0 <= i < segs.len() ==> (#[trigger] segs[i]).truncated,
        1 <= seg.size <= n,
        seg.truncated ==> seg.size <= seg.k_used,
        seg.bound > last_bound(segs),
        seg.truncated <==> seg.bound < INF,
        seg.relaxations <= m,
        segs.len() == 0 ==> seg.k_used == k0,
        segs.len() > 0 ==> seg.k_used == if grow && segs.last().size >= segs.last().k_used {
            grow_k(segs.last().k_used, n)
        } else {
            segs.last().k_used
        },
    ensures
        segments_ok(segs.push(seg), n, m, k0, grow),
        total_size(segs.push(seg)) == total_size(segs) + seg.size,
        last_bound(segs.push(seg)) == seg.bound,
{
    let t = segs.push(seg);
    assert(t.drop_last() =~= segs);
    assert forall|i: int| 0 <= i < segs.len() implies (#[trigger] segs[i]).bound <= last_bound(
        segs,
    ) by {
        if i + 1 < segs.len() {
            assert(segs[i].bound < segs[segs.len() - 1].bound);
        }
    }
    assert forall|i: int, j: int| 0 <= i < j < t.len() implies (#[trigger] t[i]).bound < (
    #[trigger] t[j]).bound by {
        if j == segs.len() {
            assert(segs[i].bound <= last_bound(segs));
        } else {
            assert(segs[i].bound < segs[j].bound);
        }
    }
    assert forall|i: int| 0 <= i < t.len() implies {
        let g = #[trigger] t[i];
        &&& 1 <= g.size <= n
        &&& g.truncated ==> g.size <= g.k_used
        &&& g.bound > 0
        &&& g.truncated <==> g.bound < INF
        &&& g.relaxations <= m
        &&& i + 1 < t.len() ==> g.truncated
    } by {
        if i < segs.len() {
            assert(t[i] == segs[i]);
        }
    }
    assert forall|i: int, j: int| 0 <= i && j == i + 1 && j < t.len() implies (
    #[trigger] t[j]).k_used == if grow && (#[trigger] t[i]).size >= t[i].k_used {
        grow_k(t[i].k_used, n)
    } else {
        t[i].k_used
    } by {
        assert(t[i] == segs[i]);
        if j < segs.len() {
            assert(t[j] == segs[j]);
        }
    }
}

/// An attempt that collects nothing has spent its budget on vertices at
/// one distance, and no vertex that is not collected is nearer.
proof fn lemma_stalled(
    g: Graph,
    s: int,
    v1: SearchView,
    visited: Seq<bool>,
    lastb: u64,
    k: u32,
    bound: u64,
    truncated: bool,
    x0: int,
)
    requires
        during(g, s, v1, visited, lastb),
        forall|x: int| 0 <= x < g.n ==> ((#[trigger] visited[x]) <==> v1.base.contains(x)),
        count_below(v1.order, v1.dist, bound) == 0,
        truncated ==> v1.order.len() == k + 1 && cut_state(g, s, v1) && bound == v1.floor,
        !truncated ==> v1.active == -1 && v1.heap =~= Multiset::empty() && bound == INF,
        open_at(visited, v1.dist, x0),
    ensures
        truncated,
        stalled(g, s, v1.dist, visited, k, lastb),
{
    let order = v1.order;
    let dist = v1.dist;
    lemma_count_below_none(order, dist, bound);
    assert forall|i: int| 0 <= i < order.len() implies (#[trigger] order[i]) < dist.len()
        && dist[order[i] as int] == bound by {
        assert(v1.done.contains(order[i] as int));
    }
    if !truncated {
        assert(!v1.base.contains(x0));
        if v1.done.contains(x0) {
            assert(order.contains(x0 as u32));
            let i = choose|i: int| 0 <= i < order.len() && order[i] == x0 as u32;
            assert(dist[order[i] as int] == bound);
        }
        assert(v1.heap.count(entry(dist[x0], x0)) > 0);
        assert(false);
    }
    lemma_count_eq_listed(order, dist, bound);
    let u0 = order[0] as int;
    assert(!v1.base.contains(u0));
    assert(!visited[u0]);
    assert(g.walk_to(s, u0, v1.walks[u0]));
    assert(g.no_walk_below(s, u0, lastb as int));
    assert(lastb <= bound < INF);
    assert forall|x: int| 0 <= x < g.n && !(#[trigger] visited[x]) implies g.no_walk_below(
        s,
        x,
        bound as int,
    ) by {
        if v1.done.contains(x) && x != v1.active {
            assert(!v1.base.contains(x));
            assert(order.contains(x as u32));
            let i = choose|i: int| 0 <= i < order.len() && order[i] == x as u32;
            assert(dist[order[i] as int] == bound);
        } else {
            assert forall|p: Seq<int>| #[trigger] g.walk_to(s, x, p) implies bound <= g.walk_len(
                p,
            ) by {}
        }
    }
    assert(count_eq(dist, bound) > k);
}

/// Vertex `x` is reached and not collected.
pub open spec fn open_at(visited: Seq<bool>, dist: Seq<u64>, x: int) -> bool {
    0 <= x < dist.len() && !visited[x] && dist[x] < INF
}

/// Runs the chain from `source`: segments of budget `k0` (doubled, up to
/// the vertex count, after a segment that filled its budget, where `grow`
/// is set), until `seg_cap` segments are emitted, `target_total` vertices
/// are collected (0 for no target), every vertex is collected, a segment
/// runs to the end, or an attempt collects nothing.
pub fn run_chain(
    g: &Csr,
    source: u32,
    dist: &mut Vec<u64>,
    pred: &mut Vec<i32>,
    k0: u32,
    seg_cap: u32,
    target_total: u32,
    grow: bool,
) -> (run: ChainRun)
    requires
        g@.wf(),
        source < g.n,
        old(dist)@.len() == g@.n,
        old(pred)@.len() == g@.n,
    ensures
        chain_post(g@, source as int, k0, seg_cap, target_total, grow, final(dist)@, final(pred)@, run),
{
    let n: u32 = g.n;
    let ghost gg = g@;
    let ghost s = source as int;
    let (mut heap, Ghost(v0)) = seed_search(g, source, dist, pred);
    let mut visited: Vec<bool> = vec![false; n as usize];
    let mut segs: Vec<ChainSegment> = Vec::new();
    let mut order: Vec<u32> = Vec::new();
    let mut total: u32 = 0;
    let mut attempts: u32 = 0;
    let mut k: u32 = k0;
    let mut lastb: u64 = 0;
    let mut ended: bool = false;
    let ghost mut v = v0;
    proof {
        lemma_start(gg, s, INF);
        lemma_count_true_none(visited@);
        assert forall|x: int| 0 <= x < gg.n && !(#[trigger] visited@[x]) implies gg.no_walk_below(
            s,
            x,
            0,
        ) by {
            assert forall|p: Seq<int>| #[trigger] gg.walk_to(s, x, p) implies 0 <= gg.walk_len(
                p,
            ) by {
                lemma_walk_len_nonneg(gg, p);
            }
        }
        assert(gg.off[gg.n as int] == gg.m());
        assert(open_at(visited@, dist@, s));
    }
    while !ended && segs.len() < seg_cap as usize && (target_total == 0 || total < target_total)
        && total < n
        invariant
            gg == g@,
            gg.wf(),
            n == gg.n,
            s == source as int,
            0 <= s < gg.n,
            gg.m() <= 0xffff_ffff,
            dist@.len() == n,
            pred@.len() == n,
            segments_ok(segs@, n, gg.m(), k0, grow),
            bands_ok(segs@, dist@),
            segs@.len() <= seg_cap,
            lastb == last_bound(segs@),
            total == total_size(segs@),
            total == count_true(visited@),
            total <= n,
            segs@.len() <= total,
            visited@.len() == n,
            attempts == segs@.len() || (ended && attempts == segs@.len() + 1),
            !ended && segs@.len() > 0 ==> k == if grow && segs@.last().size >= segs@.last().k_used {
                grow_k(segs@.last().k_used, n)
            } else {
                segs@.last().k_used
            },
            segs@.len() == 0 ==> k == k0,
            !ended ==> {
                &&& between(gg, s, v, visited@, lastb)
                &&& dist@ == v.dist
                &&& pred@ == v.pred
                &&& heap.wf()
                &&& heap.items() == v.heap
                &&& heap.pushed() <= 1 + attempts * 0x1_8000_0001
                &&& lastb < INF
                &&& forall|i: int| 0 <= i < segs@.len() ==> (#[trigger] segs@[i]).truncated
            },
            ended ==> {
                &&& chain_facts(gg, s, dist@, pred@, visited@, lastb)
                &&& attempts == segs@.len() ==> segs@.len() > 0 && !segs@.last().truncated
                &&& attempts == segs@.len() + 1 ==> stalled(
                    gg,
                    s,
                    dist@,
                    visited@,
                    next_budget(segs@, n, k0, grow),
                    lastb,
                )
            },
            !ended ==> k == next_budget(segs@, n, k0, grow),
            !ended ==> exists|x: int| #[trigger] open_at(visited@, dist@, x),
        decreases (if ended { 0int } else { 1int }) + n - total,
    {
        attempts = attempts + 1;
        order.clear();
        let mut relax: u64 = 0;
        let ghost va = v;
        proof {
            assert(marks_within(visited@, gg.n, v.base));
        }
        let (truncated, Ghost(v1)) = run_search(
            g,
            source,
            k as u64 + 1,
            INF,
            dist,
            pred,
            &visited,
            &mut heap,
            &mut order,
            &mut relax,
            Ghost(v),
        );
        let len: usize = order.len();
        proof {
            heap.lemma_size();
            assert(during(gg, s, v1, visited@, lastb)) by {
                assert forall|x: int| 0 <= x < gg.n && (#[trigger] visited@[x]) implies v1.done.contains(
                    x,
                ) && v1.dist[x] < lastb by {
                    assert(va.base.contains(x));
                    assert(v1.base.contains(x));
                    assert(v1.dist[x] <= va.dist[x]);
                }
            }
            assert forall|x: int| 0 <= x < gg.n implies ((#[trigger] visited@[x])
                <==> v1.base.contains(x)) by {
                assert(va.base.contains(x) <==> va.done.contains(x));
            }
            assert forall|i: int| 0 <= i < segs@.len() implies (#[trigger] segs@[i]).bound
                <= lastb by {
                if i + 1 < segs@.len() {
                    assert(segs@[i].bound < segs@[segs@.len() - 1].bound);
                }
            }
            lemma_bands_stay(gg, s, va, v1, visited@, lastb, segs@);
        }
        let bound: u64 = if truncated {
            dist[order[len - 1] as usize]
        } else {
            INF
        };
        let mut size: u32 = 0;
        let mut j: usize = 0;
        proof {
            assert(order@.take(0) =~= Seq::<u32>::empty());
        }
        while j < len
            invariant
                j <= len,
                len == order@.len(),
                len <= n,
                order@ == v1.order,
                dist@ == v1.dist,
                dist@.len() == n,
                inv(gg, s, INF, v1),
                size == count_below(order@.take(j as int), dist@, bound),
                size <= j,
            decreases len - j,
        {
            proof {
                assert(order@.take(j + 1).drop_last() =~= order@.take(j as int));
            }
            if dist[order[j] as usize] < bound {
                size += 1;
            }
            j += 1;
        }
        proof {
            assert(order@.take(len as int) =~= order@);
        }
        if size == 0 {
            proof {
                lemma_facts(gg, s, v1, visited@, lastb);
                let x0 = choose|x: int| #[trigger] open_at(visited@, va.dist, x);
                assert(v1.dist[x0] <= va.dist[x0]);
                assert(open_at(visited@, v1.dist, x0));
                if truncated {
                    assert(v1.order[len - 1] == order@[len - 1]);
                }
                lemma_stalled(gg, s, v1, visited@, lastb, k, bound, truncated, x0);
            }
            ended = true;
        } else {
            let ghost vis0 = visited@;
            let Ghost(v2) = close_segment(
                g,
                source,
                dist,
                &mut visited,
                &mut heap,
                &order,
                truncated,
                bound,
                &mut total,
                Ghost(v1),
                Ghost(lastb),
            );
            proof {
                lemma_count_below_some(order@, dist@, bound);
                let t = choose|t: int| 0 <= t < order@.len() && dist@[#[trigger] order@[t] as int] < bound;
                let x = order@[t] as int;
                assert(v1.order[t] == order@[t]);
                assert(!v1.base.contains(x));
                assert(!vis0[x]);
                assert(gg.walk_to(s, x, v1.walks[x]));
                assert(gg.no_walk_below(s, x, lastb as int));
                assert(lastb < bound);
                if truncated {
                    assert(order@.drop_last() =~= order@.take(len - 1));
                    lemma_count_below_le(order@.drop_last(), dist@, bound);
                    assert(v1.order.last() as int == v1.active);
                }
            }
            let seg = ChainSegment { bound, k_used: k, size, truncated, relaxations: relax };
            proof {
                lemma_segments_push(segs@, seg, n, gg.m(), k0, grow);
                lemma_count_true_le(visited@);
                assert forall|x: int| 0 <= x < dist@.len() implies ((#[trigger] visited@[x])
                    <==> dist@[x] < bound) by {
                    if truncated {
                        assert(visited@[x] <==> v2.done.contains(x));
                        if !visited@[x] && v2.dist[x] < INF {
                            assert(gg.walk_to(s, x, v2.walks[x]));
                        }
                    }
                }
                lemma_bands_push(segs@, seg, dist@, visited@);
            }
            segs.push(seg);
            lastb = bound;
            if !truncated {
                ended = true;
            } else {
                proof {
                    v = v2;
                    assert(v1.order[len - 1] == order@[len - 1]);
                    assert(open_at(visited@, dist@, order@[len - 1] as int));
                }
                if grow && size >= k {
                    k = next_k(k, n);
                }
            }
        }
    }
    proof {
        if !ended {
            lemma_facts(gg, s, v, visited@, lastb);
        }
    }
    ChainRun { segments: segs, attempts, total_collected: total, visited }
}

/// Options of the boundary-chain engine.
#[derive(Clone, Copy, Debug, PartialEq, Eq, Structural)]
pub struct ChainConfig {
    /// Budget of every segment; 0 counts as 1.
    pub k: u32,
    /// Most segments emitted; 0 counts as 1.
    pub max_segments: u32,
    /// Stop once this many vertices are collected; 0 for no target.
    pub target_total: u32,
    /// Whether the invariant checks are counted.
    pub check: bool,
}

impl ChainConfig {
    /// The options used where none are given: `k` 1024, 32 segments, no target, no checks.
    pub fn new() -> (c: Self)
        ensures
            c.k == 1024,
            c.max_segments == 32,
            c.target_total == 0,
            !c.check,
    {
        Self { k: 1024, max_segments: 32, target_total: 0, check: false }
    }
}

/// The bounds of the segments, in order.
pub open spec fn bounds_of(segs: Seq<ChainSegment>) -> Seq<u64> {
    Seq::new(segs.len(), |i: int| segs[i].bound)
}

/// The largest segment size, 0 where there is none.
pub open spec fn max_segment_of(segs: Seq<ChainSegment>) -> u32
    decreases segs.len(),
{
    if segs.len() == 0 {
        0
    } else {
        let m = max_segment_of(segs.drop_last());
        if segs.last().size > m {
            segs.last().size
        } else {
            m
        }
    }
}

/// Sum of the relaxations of the segments.
pub open spec fn total_relax(segs: Seq<ChainSegment>) -> nat
    decreases segs.len(),
{
    if segs.len() == 0 {
        0
    } else {
        total_relax(segs.drop_last()) + segs.last().relaxations as nat
    }
}

/// Segments of at most `m` relaxations each have at most `m` times their number together.
proof fn lemma_total_relax_bound(segs: Seq<ChainSegment>, m: nat)
    requires
        forall|i: int| 0 <= i < segs.len() ==> (#[trigger] segs[i]).relaxations <= m,
    ensures
        total_relax(segs) <= segs.len() * m,
    decreases segs.len(),
{
    if segs.len() > 0 {
        let q = segs.drop_last();
        assert forall|i: int| 0 <= i < q.len() implies (#[trigger] q[i]).relaxations <= m by {
            assert(q[i] == segs[i]);
        }
        lemma_total_relax_bound(q, m);
        assert(segs.len() * m == q.len() * m + m) by (nonlinear_arith)
            requires
                segs.len() == q.len() + 1,
        ;
    }
}

/// The counters that a chain with these segments records.
pub open spec fn chain_stats_of(run: ChainRun) -> SpecBoundaryChainStats {
    SpecBoundaryChainStats {
        segments: run.segments@.len() as u32,
        attempts: run.attempts,
        total_collected: run.total_collected,
        max_segment: max_segment_of(run.segments@),
        monotonic_ok: 1,
        relaxations: total_relax(run.segments@) as u64,
    }
}

/// Invariant checks that a chain makes where checking is enabled: one per
/// segment after the first for its bound, and one per vertex collected.
pub open spec fn chain_checks(run: ChainRun, enabled: bool) -> SpecInvariantStats {
    SpecInvariantStats {
        checks: if enabled && run.segments@.len() > 0 {
            (run.segments@.len() - 1 + run.total_collected) as u64
        } else {
            0
        },
        failures: 0,
    }
}

/// Sums up the segments of a run.
fn summarize(run: &ChainRun, m: Ghost<nat>) -> (r: (u32, u64, Vec<u64>))
    requires
        run.segments@.len() <= u32::MAX,
        m@ <= 0xffff_ffff,
        forall|i: int| 0 <= i < run.segments@.len() ==> (#[trigger] run.segments@[i]).relaxations <= m@,
    ensures
        r.0 == max_segment_of(run.segments@),
        r.1 == total_relax(run.segments@),
        r.2@ == bounds_of(run.segments@),
{
    let mut max_segment: u32 = 0;
    let mut relax: u64 = 0;
    let mut bounds: Vec<u64> = Vec::new();
    let mut i: usize = 0;
    let len: usize = run.segments.len();
    proof {
        assert(run.segments@.take(0) =~= Seq::<ChainSegment>::empty());
    }
    while i < len
        invariant
            i <= len,
            len == run.segments@.len(),
            len <= u32::MAX,
            m@ <= 0xffff_ffff,
            forall|t: int| 0 <= t < len ==> (#[trigger] run.segments@[t]).relaxations <= m@,
            max_segment == max_segment_of(run.segments@.take(i as int)),
            relax == total_relax(run.segments@.take(i as int)),
            relax <= i * m@,
            bounds@ == bounds_of(run.segments@.take(i as int)),
        decreases len - i,
    {
        let seg = run.segments[i];
        proof {
            let ta = run.segments@.take(i as int);
            let tb = run.segments@.take(i + 1);
            assert(tb.drop_last() =~= ta);
            assert(tb.last() == seg);
            assert((i + 1) * m@ == i * m@ + m@) by (nonlinear_arith);
            assert(i * m@ <= 0xffff_ffff * 0xffff_ffff) by (nonlinear_arith)
                requires
                    0 <= i <= 0xffff_ffff,
                    0 <= m@ <= 0xffff_ffff,
            ;
            assert(bounds@.push(seg.bound) =~= bounds_of(tb));
        }
        if seg.size > max_segment {
            max_segment = seg.size;
        }
        relax = relax + seg.relaxations;
        bounds.push(seg.bound);
        i += 1;
    }
    proof {
        assert(run.segments@.take(len as int) =~= run.segments@);
    }
    (max_segment, relax, bounds)
}

/// The boundary-chain engine. Emits segments with the budget and limits of
/// `cfg`: each collects the vertices in a band of distances, and the bounds
/// rise strictly. The bounds go to `chain`, the counters to `stats`; the
/// result record reports the collected count as settled and, in its error
/// code, 1 for bounds that rose throughout. `out_dist` holds the distance of
/// every collected vertex, and of every vertex where the last segment ran
/// to the end; an attempt that collects nothing ends the chain.
pub fn sssp_run_spec_boundary_chain(
    n: u32,
    offsets: &[u32],
    targets: &[u32],
    weights: &[u64],
    source: u32,
    out_dist: &mut Vec<u64>,
    out_pred: &mut Vec<i32>,
    info: &mut SsspResultInfo,
    cfg: &ChainConfig,
    stats: &mut SpecBoundaryChainStats,
    chain: &mut BoundaryChain,
    checks: &mut SpecInvariantStats,
) -> (status: i32)
    ensures
        status == entry_status(
            n,
            offsets,
            targets,
            weights,
            source,
            old(out_dist)@.len(),
            old(out_pred)@.len(),
        ),
        status != STATUS_OK ==> {
            &&& final(out_dist)@ == old(out_dist)@
            &&& final(out_pred)@ == old(out_pred)@
            &&& *final(info) == *old(info)
            &&& *final(stats) == *old(stats)
            &&& final(chain).layers@ == old(chain).layers@
            &&& *final(checks) == *old(checks)
        },
        status == STATUS_OK ==> {
            &&& exists|run: ChainRun|
                {
                    &&& #[trigger] chain_post(
                        graph_of(n, offsets, targets, weights),
                        source as int,
                        at_least_one(cfg.k),
                        at_least_one(cfg.max_segments),
                        cfg.target_total,
                        false,
                        final(out_dist)@,
                        final(out_pred)@,
                        run,
                    )
                    &&& *final(stats) == chain_stats_of(run)
                    &&& final(chain).layers@ == bounds_of(run.segments@)
                    &&& *final(checks) == chain_checks(run, cfg.check)
                }
            &&& forall|i: int, j: int|
                0 <= i < j < final(chain).layers@.len() ==> (#[trigger] final(chain).layers@[i]) < (
                #[trigger] final(chain).layers@[j])
            &&& final(stats).monotonic_ok == 1
            &&& final(info).relaxations == final(stats).relaxations
            &&& final(info).light_relaxations == 0
            &&& final(info).heavy_relaxations == 0
            &&& final(info).settled == final(stats).total_collected
            &&& final(info).error_code == 1
        },
{
    let status = check_entry(n, offsets, targets, weights, source, out_dist.len(), out_pred.len());
    if status != STATUS_OK {
        return status;
    }
    let g = Csr { n, offsets, targets, weights };
    let k: u32 = clamp_k(cfg.k);
    let seg_max: u32 = clamp_k(cfg.max_segments);
    let run = run_chain(&g, source, out_dist, out_pred, k, seg_max, cfg.target_total, false);
    proof {
        assert(g@.off[g@.n as int] == g@.m());
        lemma_total_relax_bound(run.segments@, g@.m());
        assert(run.segments@.len() * g@.m() <= 0xffff_ffff * 0xffff_ffff) by (nonlinear_arith)
            requires
                0 <= run.segments@.len() <= 0xffff_ffff,
                0 <= g@.m() <= 0xffff_ffff,
        ;
    }
    let (max_segment, relax, bounds) = summarize(&run, Ghost(g@.m()));
    let segments: u32 = run.segments.len() as u32;
    *stats = SpecBoundaryChainStats {
        segments,
        attempts: run.attempts,
        total_collected: run.total_collected,
        max_segment,
        monotonic_ok: 1,
        relaxations: relax,
    };
    *info = SsspResultInfo {
        relaxations: relax,
        light_relaxations: 0,
        heavy_relaxations: 0,
        settled: run.total_collected,
        error_code: 1,
    };
    chain.layers = bounds;
    *checks = SpecInvariantStats {
        checks: if cfg.check && segments > 0 {
            (segments - 1) as u64 + run.total_collected as u64
        } else {
            0
        },
        failures: 0,
    };
    proof {
        assert(chain_post(
            g@,
            source as int,
            at_least_one(cfg.k),
            at_least_one(cfg.max_segments),
            cfg.target_total,
            false,
            out_dist@,
            out_pred@,
            run,
        ));
        assert forall|i: int, j: int| 0 <= i < j < chain.layers@.len() implies (
        #[trigger] chain.layers@[i]) < (#[trigger] chain.layers@[j]) by {
            assert(run.segments@[i].bound < run.segments@[j].bound);
        }
    }
    STATUS_OK
}

} // verus!

//! The relaxation loop that the heap-driven engines share: pop the nearest
//! entry, discard it if it is stale, else settle the vertex and relax its
//! edges, until the heap is empty or a budget of settled vertices is spent.

use vstd::prelude::*;
use crate::graph::{Csr, Graph, INF, dist_add};
use vstd::multiset::Multiset;
use crate::heap::{HeapItem, MinHeap};
use crate::chain::{count_lt, lemma_count_lt_update};
use crate::frontier::{
    SearchView,
    inv,
    entry,
    relaxed,
    after_discard,
    after_settle,
    after_improve,
    after_skip,
    after_finish,
    lemma_discard,
    lemma_settle,
    lemma_improve,
    lemma_skip,
    lemma_finish,
    lemma_distinct_bounded,
    start_view,
    degree_sum,
    lemma_degree_sum_bound,
    edges_within,
    within_sum,
    lemma_within_sum_same,
};

verus! {

/// Largest count of relaxations that a caller may bring to a search.
pub const RELAX_ROOM: u64 = 0x8000_0000_0000_0000;

/// Largest count of pushes that a heap may have seen before a search.
pub const PUSH_ROOM: u64 = 0xffff_fffe_0000_0000;

/// `visited` marks vertices of `base` only; an empty bitmap marks none.
pub open spec fn marks_within(visited: Seq<bool>, n: nat, base: Set<int>) -> bool {
    &&& visited.len() == 0 || visited.len() == n
    &&& forall|i: int| 0 <= i < visited.len() && #[trigger] visited[i] ==> base.contains(i)
}

/// Every entry of the heap is one of vertex `source`.
pub open spec fn only_source(heap: Multiset<HeapItem>, source: u32) -> bool {
    forall|y: HeapItem| #[trigger] heap.count(y) > 0 ==> y.node == source
}

/// Taking an entry out leaves entries of the source only, where there were no others.
pub proof fn lemma_only_source_remove(heap: Multiset<HeapItem>, x: HeapItem, source: u32)
    requires
        only_source(heap, source),
    ensures
        only_source(heap.remove(x), source),
{
    broadcast use vstd::multiset::group_multiset_axioms;

    assert forall|y: HeapItem| #[trigger] heap.remove(x).count(y) > 0 implies y.node == source by {
        assert(heap.count(y) > 0);
    }
}

/// The predecessor of `x` is an entry of `order` before position `upto`.
pub open spec fn parent_listed(pred: Seq<i32>, order: Seq<u32>, upto: int, x: int) -> bool {
    exists|j: int| 0 <= j < upto && (#[trigger] order[j]) as int == pred[x] as int
}

/// Every reached vertex but `s` has its predecessor in `order`, and every
/// entry of `order` but `s` has it before itself.
pub open spec fn parents_ok(s: int, dist: Seq<u64>, pred: Seq<i32>, order: Seq<u32>) -> bool {
    &&& forall|x: int|
        0 <= x < dist.len() && x != s && (#[trigger] dist[x]) < INF ==> parent_listed(
            pred,
            order,
            order.len() as int,
            x,
        )
    &&& forall|i: int|
        0 <= i < order.len() && (#[trigger] order[i]) as int != s ==> parent_listed(
            pred,
            order,
            i,
            order[i] as int,
        )
}

/// Nothing is done and the heap holds entries of the source only: the search starts afresh.
pub open spec fn fresh(v0: SearchView, source: u32) -> bool {
    only_source(v0.heap, source) && forall|x: int| !v0.done.contains(x)
}

/// A search that starts afresh has reached the source only.
pub proof fn lemma_parents_start(g: Graph, s: int, bound: u64, v0: SearchView)
    requires
        inv(g, s, bound, v0),
        fresh(v0, s as u32),
        v0.order.len() == 0,
    ensures
        parents_ok(s, v0.dist, v0.pred, v0.order),
{
    assert forall|x: int| 0 <= x < v0.dist.len() && x != s && (#[trigger] v0.dist[x])
        < INF implies parent_listed(v0.pred, v0.order, v0.order.len() as int, x) by {
        assert(!v0.done.contains(x));
        assert(v0.heap.count(entry(v0.dist[x], x)) > 0);
        assert(entry(v0.dist[x], x).node == s as u32);
    }
}

/// Settling a reached vertex keeps every predecessor before its vertex.
pub proof fn lemma_parents_settle(s: int, dist: Seq<u64>, pred: Seq<i32>, order: Seq<u32>, x: u32)
    requires
        parents_ok(s, dist, pred, order),
        x < dist.len(),
        dist[x as int] < INF,
    ensures
        parents_ok(s, dist, pred, order.push(x)),
{
    let o2 = order.push(x);
    assert forall|y: int| 0 <= y < dist.len() && y != s && (#[trigger] dist[y]) < INF implies parent_listed(
        pred,
        o2,
        o2.len() as int,
        y,
    ) by {
        let j = choose|j: int| 0 <= j < order.len() && (#[trigger] order[j]) as int == pred[y] as int;
        assert(o2[j] == order[j]);
    }
    assert forall|i: int| 0 <= i < o2.len() && (#[trigger] o2[i]) as int != s implies parent_listed(
        pred,
        o2,
        i,
        o2[i] as int,
    ) by {
        if i < order.len() {
            assert(o2[i] == order[i]);
            let j = choose|j: int| 0 <= j < i && (#[trigger] order[j]) as int == pred[order[i] as int] as int;
            assert(o2[j] == order[j]);
        } else {
            let j = choose|j: int|
                0 <= j < order.len() && (#[trigger] order[j]) as int == pred[x as int] as int;
            assert(o2[j] == order[j]);
        }
    }
}

/// An accepted relaxation from the last entry of `order` to a vertex that
/// is no entry keeps every predecessor before its vertex.
pub proof fn lemma_parents_improve(
    s: int,
    dist: Seq<u64>,
    pred: Seq<i32>,
    order: Seq<u32>,
    y: int,
    nd: u64,
)
    requires
        parents_ok(s, dist, pred, order),
        dist.len() == pred.len(),
        0 <= y < dist.len(),
        order.len() > 0,
        order.last() <= 0x7fff_ffff,
        forall|i: int| 0 <= i < order.len() ==> (#[trigger] order[i]) as int != y,
        forall|i: int| 0 <= i < order.len() ==> (#[trigger] order[i]) < dist.len(),
    ensures
        parents_ok(s, dist.update(y, nd), pred.update(y, order.last() as i32), order),
{
    let d2 = dist.update(y, nd);
    let p2 = pred.update(y, order.last() as i32);
    assert forall|x: int| 0 <= x < d2.len() && x != s && (#[trigger] d2[x]) < INF implies parent_listed(
        p2,
        order,
        order.len() as int,
        x,
    ) by {
        if x == y {
            assert(order[order.len() - 1] as int == p2[x] as int);
        } else {
            assert(dist[x] < INF);
            let j = choose|j: int| 0 <= j < order.len() && (#[trigger] order[j]) as int == pred[x] as int;
            assert(order[j] as int == p2[x] as int);
        }
    }
    assert forall|i: int| 0 <= i < order.len() && (#[trigger] order[i]) as int != s implies parent_listed(
        p2,
        order,
        i,
        order[i] as int,
    ) by {
        let j = choose|j: int| 0 <= j < i && (#[trigger] order[j]) as int == pred[order[i] as int] as int;
        assert(order[j] as int == p2[order[i] as int] as int);
    }
}

/// Runs the relaxation loop from the state that `v0` describes. It stops
/// with `true` as soon as `budget` vertices have been settled, the last of
/// them with none of its edges relaxed; else it runs until the heap is
/// empty and returns `false`. The view it returns describes the state at
/// the end, and the invariant holds of it.
pub(crate) fn run_search(
    g: &Csr,
    source: u32,
    budget: u64,
    bound: u64,
    dist: &mut Vec<u64>,
    pred: &mut Vec<i32>,
    visited: &Vec<bool>,
    heap: &mut MinHeap,
    order: &mut Vec<u32>,
    relax: &mut u64,
    Ghost(v0): Ghost<SearchView>,
) -> (res: (bool, Ghost<SearchView>))
    requires
        inv(g@, source as int, bound, v0),
        v0.active == -1,
        v0.order.len() == 0,
        old(dist)@ == v0.dist,
        old(pred)@ == v0.pred,
        old(heap).wf(),
        old(heap).items() == v0.heap,
        old(heap).pushed() <= PUSH_ROOM,
        old(order)@.len() == 0,
        marks_within(visited@, g@.n, v0.base),
        budget >= 1,
        *old(relax) <= RELAX_ROOM,
    ensures
        inv(g@, source as int, bound, res.1@),
        final(dist)@ == res.1@.dist,
        final(pred)@ == res.1@.pred,
        final(order)@ == res.1@.order,
        final(heap).wf(),
        final(heap).items() == res.1@.heap,
        res.1@.base == v0.base,
        res.0 ==> final(order)@.len() == budget && res.1@.active >= 0 && res.1@.upto
            == g@.off[res.1@.active],
        !res.0 ==> final(order)@.len() < budget && res.1@.active == -1 && final(heap).size() == 0,
        *final(relax) - *old(relax) == final(heap).pushed() - old(heap).pushed(),
        *final(relax) - *old(relax) <= degree_sum(g@, final(order)@) <= g@.m(),
        final(order)@.len() <= g@.n,
        final(heap).peak() >= old(heap).peak(),
        final(heap).popped() >= old(heap).popped(),
        *final(relax) >= *old(relax),
        res.1@.floor >= v0.floor,
        forall|x: int| 0 <= x < g@.n ==> res.1@.dist[x] <= #[trigger] v0.dist[x],
        res.0 ==> forall|p: Seq<int>, y: int|
            (!res.1@.done.contains(y) || y == res.1@.active) && #[trigger] g@.walk_to(
                source as int,
                y,
                p,
            ) ==> res.1@.floor <= g@.walk_len(p),
        count_lt(final(dist)@, INF) - count_lt(v0.dist, INF) <= *final(relax) - *old(relax),
        only_source(v0.heap, source) && final(order)@.len() > 0 ==> final(order)@[0] == source,
        fresh(v0, source) ==> parents_ok(source as int, final(dist)@, final(pred)@, final(order)@),
        *final(relax) - *old(relax) <= within_sum(
            g@,
            if res.0 {
                final(order)@.drop_last()
            } else {
                final(order)@
            },
            final(dist)@,
            bound,
        ),
{
    let ghost mut v = v0;
    let ghost gg = g@;
    let ghost s = source as int;
    let ghost p0 = heap.pushed() as int;
    let ghost r0 = *relax as int;
    proof {
        assert(gg.off[gg.n as int] == gg.m());
        assert(order@ =~= Seq::<u32>::empty());
        if fresh(v0, source) {
            lemma_parents_start(gg, s, bound, v0);
        }
    }
    loop
        invariant
            gg == g@,
            s == source as int,
            inv(gg, s, bound, v),
            v.active == -1,
            v.base == v0.base,
            dist@ == v.dist,
            pred@ == v.pred,
            order@ == v.order,
            heap.wf(),
            heap.items() == v.heap,
            marks_within(visited@, gg.n, v.base),
            budget >= 1,
            order@.len() < budget,
            order@.len() <= gg.n,
            r0 == *old(relax),
            p0 == old(heap).pushed(),
            heap.peak() >= old(heap).peak(),
            heap.popped() >= old(heap).popped(),
            *relax >= r0,
            v.floor >= v0.floor,
            r0 <= RELAX_ROOM,
            p0 <= PUSH_ROOM,
            gg.m() <= 0xffff_ffff,
            *relax - r0 == heap.pushed() - p0,
            *relax - r0 <= degree_sum(gg, order@) <= gg.m(),
            forall|x: int| 0 <= x < gg.n ==> v.dist[x] <= #[trigger] v0.dist[x],
            count_lt(dist@, INF) - count_lt(v0.dist, INF) <= *relax - r0,
            only_source(v0.heap, source) ==> if order@.len() == 0 {
                only_source(v.heap, source)
            } else {
                order@[0] == source
            },
            *relax - r0 <= within_sum(gg, order@, dist@, bound),
            fresh(v0, source) ==> parents_ok(s, dist@, pred@, order@),
        ensures
            *relax - r0 <= within_sum(gg, order@, dist@, bound),
            fresh(v0, source) ==> parents_ok(s, dist@, pred@, order@),
            inv(gg, s, bound, v),
            v.base == v0.base,
            dist@ == v.dist,
            pred@ == v.pred,
            order@ == v.order,
            heap.wf(),
            heap.items() == v.heap,
            order@.len() < budget,
            v.active == -1,
            heap.size() == 0,
            order@.len() <= gg.n,
            heap.peak() >= old(heap).peak(),
            heap.popped() >= old(heap).popped(),
            *relax >= r0,
            v.floor >= v0.floor,
            *relax - r0 == heap.pushed() - p0,
            *relax - r0 <= degree_sum(gg, order@) <= gg.m(),
            forall|x: int| 0 <= x < gg.n ==> v.dist[x] <= #[trigger] v0.dist[x],
            count_lt(dist@, INF) - count_lt(v0.dist, INF) <= *relax - r0,
            only_source(v0.heap, source) && order@.len() > 0 ==> order@[0] == source,
        decreases p0 + gg.m() - heap.popped(),
    {
        proof {
            heap.lemma_size();
        }
        let top = heap.pop();
        let x = match top {
            None => {
                break ;
            },
            Some(x) => x,
        };
        let u: usize = x.node as usize;
        if x.dist > dist[u] {
            proof {
                lemma_discard(gg, s, bound, v, x);
                if only_source(v.heap, source) {
                    lemma_only_source_remove(v.heap, x, source);
                }
                v = after_discard(v, x);
            }
            continue ;
        }
        if visited.len() > 0 && visited[u] {
            proof {
                assert(v.base.contains(u as int));
                lemma_discard(gg, s, bound, v, x);
                if only_source(v.heap, source) {
                    lemma_only_source_remove(v.heap, x, source);
                }
                v = after_discard(v, x);
            }
            continue ;
        }
        proof {
            if only_source(v0.heap, source) && order@.len() == 0 {
                assert(v.heap.count(x) > 0);
            }
            lemma_settle(gg, s, bound, v, x);
            if fresh(v0, source) {
                lemma_parents_settle(s, dist@, pred@, order@, x.node);
            }
            v = after_settle(gg, v, x);
            lemma_distinct_bounded(v.order, gg.n);
            lemma_degree_sum_bound(gg, v.order);
            assert(v.order.drop_last() =~= order@);
        }
        order.push(x.node);
        proof {
            assert(order@.drop_last() =~= v.order.drop_last());
        }
        if order.len() as u64 == budget {
            proof {
                heap.lemma_size();
            }
            return (true, Ghost(v));
        }
        let start: usize = g.first_edge(x.node);
        let end: usize = g.end_edge(x.node);
        let ghost rbase = *relax as int;
        let ghost pops = heap.popped();
        let mut e: usize = start;
        while e < end
            invariant
                gg == g@,
                s == source as int,
                inv(gg, s, bound, v),
                v.active == x.node as int,
                v.upto == e as int,
                start <= e <= end,
                start == gg.off[x.node as int],
                end == gg.off[x.node as int + 1],
                end <= gg.m(),
                x.dist == v.dist[x.node as int],
                v.base == v0.base,
                dist@ == v.dist,
                pred@ == v.pred,
                order@ == v.order,
                heap.wf(),
                heap.items() == v.heap,
                marks_within(visited@, gg.n, v.base),
                order@.len() <= gg.n,
                r0 == *old(relax),
                p0 == old(heap).pushed(),
                heap.peak() >= old(heap).peak(),
                heap.popped() >= old(heap).popped(),
                *relax >= r0,
                v.floor >= v0.floor,
                r0 <= RELAX_ROOM,
                p0 <= PUSH_ROOM,
                gg.m() <= 0xffff_ffff,
                *relax - r0 == heap.pushed() - p0,
                rbase - r0 + (end - start) <= degree_sum(gg, order@) <= gg.m(),
                *relax - rbase <= e - start,
                heap.popped() == pops,
                forall|z: int| 0 <= z < gg.n ==> v.dist[z] <= #[trigger] v0.dist[z],
                count_lt(dist@, INF) - count_lt(v0.dist, INF) <= *relax - r0,
                order@.len() > 0,
                only_source(v0.heap, source) ==> order@[0] == source,
                order@.last() == x.node,
                fresh(v0, source) ==> parents_ok(s, dist@, pred@, order@),
                rbase - r0 <= within_sum(gg, order@.drop_last(), dist@, bound),
                *relax - rbase <= edges_within(gg, x.node as int, x.dist, bound, e as int),
            decreases end - e,
        {
            let y: u32 = g.targets[e];
            let w: u64 = g.weights[e];
            let marked: bool = visited.len() > 0 && visited[y as usize];
            let nd: u64 = dist_add(x.dist, w);
            if !marked && nd < dist[y as usize] && nd <= bound {
                proof {
                    lemma_count_lt_update(dist@, y as int, nd, INF);
                    lemma_improve(gg, s, bound, v);
                    let rest = order@.drop_last();
                    assert forall|i: int| 0 <= i < rest.len() implies dist@[(
                    #[trigger] rest[i]) as int] == dist@.update(y as int, nd)[rest[i] as int] by {
                        assert(rest[i] == v.order[i]);
                        assert(v.done.contains(v.order[i] as int));
                    }
                    lemma_within_sum_same(gg, rest, dist@, dist@.update(y as int, nd), bound);
                    if fresh(v0, source) {
                        assert forall|i: int| 0 <= i < order@.len() implies (#[trigger] order@[i]) as int
                            != y as int && order@[i] < dist@.len() by {
                            assert(v.order[i] == order@[i]);
                            assert(v.done.contains(v.order[i] as int));
                        }
                        lemma_parents_improve(s, dist@, pred@, order@, y as int, nd);
                    }
                    v = after_improve(gg, v);
                    heap.lemma_size();
                }
                dist[y as usize] = nd;
                pred[y as usize] = x.node as i32;
                heap.push(HeapItem { dist: nd, node: y });
                *relax = *relax + 1;
            } else {
                proof {
                    if !marked {
                        assert(relaxed(gg, v.dist, bound, v.active, v.upto));
                    }
                    lemma_skip(gg, s, bound, v);
                    v = after_skip(v);
                }
            }
            e += 1;
        }
        proof {
            lemma_finish(gg, s, bound, v);
            v = after_finish(v);
        }
    }
    (false, Ghost(v))
}

/// Sets every slot of `v` to `x`.
pub fn fill_dist(v: &mut Vec<u64>, x: u64)
    ensures
        final(v)@.len() == old(v)@.len(),
        forall|i: int| 0 <= i < final(v)@.len() ==> final(v)@[i] == x,
{
    let n: usize = v.len();
    let mut i: usize = 0;
    while i < n
        invariant
            v@.len() == n,
            i <= n,
            forall|j: int| 0 <= j < i ==> v@[j] == x,
        decreases n - i,
    {
        v[i] = x;
        i += 1;
    }
}

/// Sets every slot of `v` to "no predecessor".
pub fn fill_pred(v: &mut Vec<i32>)
    ensures
        final(v)@.len() == old(v)@.len(),
        forall|i: int| 0 <= i < final(v)@.len() ==> final(v)@[i] == -1,
{
    let n: usize = v.len();
    let mut i: usize = 0;
    while i < n
        invariant
            v@.len() == n,
            i <= n,
            forall|j: int| 0 <= j < i ==> v@[j] == -1,
        decreases n - i,
    {
        v[i] = -1;
        i += 1;
    }
}

/// Resets the arrays and seeds a new heap with the source at distance 0.
pub(crate) fn seed_search(g: &Csr, source: u32, dist: &mut Vec<u64>, pred: &mut Vec<i32>) -> (res: (
    MinHeap,
    Ghost<SearchView>,
))
    requires
        g@.wf(),
        source < g.n,
        old(dist)@.len() == g@.n,
        old(pred)@.len() == g@.n,
    ensures
        res.1@ == start_view(g@, source as int),
        final(dist)@ == res.1@.dist,
        final(pred)@ == res.1@.pred,
        res.0.wf(),
        res.0.items() == res.1@.heap,
        res.0.pushed() == 1,
        res.0.popped() == 0,
        res.0.peak() == 1,
{
    fill_dist(dist, INF);
    fill_pred(pred);
    dist[source as usize] = 0;
    let n: usize = g.n as usize;
    let cap: usize = if n < 1024 { n } else { 1024 };
    let mut heap = MinHeap::with_cap(cap);
    heap.push(HeapItem { dist: 0, node: source });
    let ghost v = start_view(g@, source as int);
    proof {
        broadcast use vstd::multiset::group_multiset_axioms;

        assert(dist@ =~= v.dist);
        assert(pred@ =~= v.pred);
        assert(heap.items() =~= v.heap);
    }
    (heap, Ghost(v))
}

} // verus!

//! The batched heap engine: up to `k` current entries are popped at once,
//! then the edges of each are relaxed from the distance it was popped with.

use vstd::prelude::*;
use vstd::multiset::Multiset;
use crate::graph::{
    Csr,
    Graph,
    INF,
    STATUS_OK,
    STATUS_CAP_EXCEEDED,
    graph_of,
    entry_status,
    check_entry,
    dist_add,
    lemma_walk_extend,
    lemma_source_dist,
};
use crate::heap::{HeapItem, MinHeap};
use crate::frontier::entry;
use crate::delta::{upper_ok, weak_tight, lemma_upper_start};
use crate::bucket_d::{
    relaxed_all,
    dist_sum,
    lemma_dist_sum_update,
    lemma_dist_sum_nonneg,
    lemma_relaxed_is_solution,
    bump,
};
use crate::stats::SsspResultInfo;
use crate::chain::{count_lt, lemma_count_lt_update, lemma_count_lt_single, lemma_count_lt_le};

verus! {

/// Batch size used where none is given.
pub const BATCH_DEFAULT: u32 = 32;

/// Largest batch size.
pub const BATCH_MAX: u32 = 1024;

/// `k` within 1 and `BATCH_MAX`.
pub open spec fn clamp_batch(k: u32) -> u32 {
    if k < 1 {
        1
    } else if k > BATCH_MAX {
        BATCH_MAX
    } else {
        k
    }
}

/// Computes `clamp_batch`.
pub fn batch_size(k: u32) -> (r: u32)
    ensures
        r == clamp_batch(k),
{
    if k < 1 {
        1
    } else if k > BATCH_MAX {
        BATCH_MAX
    } else {
        k
    }
}

/// An item of `batch` at position `from` or later is the current entry of `u`.
pub open spec fn batched(batch: Seq<HeapItem>, from: int, dist: Seq<u64>, u: int) -> bool {
    exists|i: int| from <= i < batch.len() && #[trigger] batch[i] == entry(dist[u], u)
}

/// Vertex `u` has its edges relaxed, or its current entry waits in the heap or in the batch.
pub open spec fn kept_up(
    g: Graph,
    dist: Seq<u64>,
    heap: Multiset<HeapItem>,
    batch: Seq<HeapItem>,
    t: int,
    u: int,
) -> bool {
    ||| relaxed_all(g, dist, u)
    ||| heap.count(entry(dist[u], u)) > 0
    ||| batched(batch, t, dist, u)
}

/// Every reached vertex is kept up, and every entry is a vertex at the
/// length of a walk.
pub open spec fn all_kept_up(
    g: Graph,
    s: int,
    dist: Seq<u64>,
    heap: Multiset<HeapItem>,
    batch: Seq<HeapItem>,
    t: int,
) -> bool {
    &&& forall|u: int| 0 <= u < g.n && dist[u] < INF ==> #[trigger] kept_up(g, dist, heap, batch, t, u)
    &&& forall|x: HeapItem| #[trigger] heap.count(x) > 0 ==> item_ok(g, s, dist, x)
    &&& forall|i: int| 0 <= i < batch.len() ==> item_ok(g, s, dist, #[trigger] batch[i])
}

/// The entry names a vertex and the length of a walk to it, no less than
/// the vertex's distance entry.
pub open spec fn item_ok(g: Graph, s: int, dist: Seq<u64>, x: HeapItem) -> bool {
    &&& x.node < g.n
    &&& x.dist < INF
    &&& g.walk_of_len(s, x.node as int, x.dist as int)
    &&& dist[x.node as int] <= x.dist
}

/// A relaxation over edge `e` of `u` from the distance `base`, which is
/// the length of a walk to `u`, keeps the arrays sound.
proof fn lemma_upper_from(
    g: Graph,
    s: int,
    dist: Seq<u64>,
    pred: Seq<i32>,
    u: int,
    e: int,
    base: u64,
)
    requires
        upper_ok(g, s, dist, pred),
        g.edge_from(u, e),
        dist[u] <= base,
        g.walk_of_len(s, u, base as int),
        base + g.wts[e] < dist[g.tgt[e] as int],
    ensures
        upper_ok(
            g,
            s,
            dist.update(g.tgt[e] as int, (base + g.wts[e]) as u64),
            pred.update(g.tgt[e] as int, u as i32),
        ),
        g.tgt[e] as int != s,
        g.tgt[e] as int != u,
        g.walk_of_len(s, g.tgt[e] as int, base + g.wts[e]),
        0 <= g.tgt[e] < g.n,
{
    let v = g.tgt[e] as int;
    let nd = (base + g.wts[e]) as u64;
    let d2 = dist.update(v, nd);
    let p2 = pred.update(v, u as i32);
    assert(g.off[u + 1] <= g.off[g.n as int]);
    assert(0 <= v < g.n);
    let pu = choose|p: Seq<int>| #[trigger] g.walk_to(s, u, p) && g.walk_len(p) == base as int;
    lemma_walk_extend(g, s, pu, e);
    assert(g.walk_to(s, v, pu.push(e)));
    assert forall|x: int| 0 <= x < g.n && (#[trigger] d2[x]) < INF implies g.walk_of_len(
        s,
        x,
        d2[x] as int,
    ) by {
        if x != v {
            assert(dist[x] < INF);
        }
    }
    assert forall|x: int| 0 <= x < g.n && x != s && d2[x] < INF implies weak_tight(
        g,
        d2,
        (#[trigger] p2[x]) as int,
        x,
    ) by {
        if x == v {
            assert(g.edge_from(u, e) && g.tgt[e] == v && d2[u] + g.wts[e] <= d2[v]);
        } else {
            let q = pred[x] as int;
            assert(weak_tight(g, dist, q, x));
            let f = choose|f: int| #[trigger]
                g.edge_from(q, f) && g.tgt[f] == x && dist[q] + g.wts[f] <= dist[x];
            assert(g.edge_from(q, f) && g.tgt[f] == x && d2[q] + g.wts[f] <= d2[x]);
        }
    }
}

/// Dropping a stale entry keeps every vertex kept up.
proof fn lemma_drop_stale(
    g: Graph,
    s: int,
    dist: Seq<u64>,
    heap: Multiset<HeapItem>,
    batch: Seq<HeapItem>,
    t: int,
    x: HeapItem,
)
    requires
        all_kept_up(g, s, dist, heap, batch, t),
        g.n <= u32::MAX,
        heap.count(x) > 0,
        x.dist > dist[x.node as int],
    ensures
        all_kept_up(g, s, dist, heap.remove(x), batch, t),
{
    broadcast use vstd::multiset::group_multiset_axioms;

    let h2 = heap.remove(x);
    assert forall|u: int| 0 <= u < g.n && dist[u] < INF implies #[trigger] kept_up(
        g,
        dist,
        h2,
        batch,
        t,
        u,
    ) by {
        assert(kept_up(g, dist, heap, batch, t, u));
        assert(entry(dist[u], u) != x);
    }
    assert forall|y: HeapItem| #[trigger] h2.count(y) > 0 implies item_ok(g, s, dist, y) by {
        assert(heap.count(y) > 0);
    }
}

/// Moving a current entry from the heap to the end of the batch keeps every vertex kept up.
proof fn lemma_to_batch(
    g: Graph,
    s: int,
    dist: Seq<u64>,
    heap: Multiset<HeapItem>,
    batch: Seq<HeapItem>,
    x: HeapItem,
)
    requires
        all_kept_up(g, s, dist, heap, batch, 0),
        heap.count(x) > 0,
    ensures
        all_kept_up(g, s, dist, heap.remove(x), batch.push(x), 0),
{
    broadcast use vstd::multiset::group_multiset_axioms;

    let h2 = heap.remove(x);
    let b2 = batch.push(x);
    assert(item_ok(g, s, dist, x));
    assert forall|u: int| 0 <= u < g.n && dist[u] < INF implies #[trigger] kept_up(
        g,
        dist,
        h2,
        b2,
        0,
        u,
    ) by {
        assert(kept_up(g, dist, heap, batch, 0, u));
        if entry(dist[u], u) == x {
            assert(b2[batch.len() as int] == entry(dist[u], u));
            assert(batched(b2, 0, dist, u));
        } else if batched(batch, 0, dist, u) {
            let i = choose|i: int| 0 <= i < batch.len() && #[trigger] batch[i] == entry(dist[u], u);
            assert(b2[i] == entry(dist[u], u));
            assert(batched(b2, 0, dist, u));
        }
    }
    assert forall|y: HeapItem| #[trigger] h2.count(y) > 0 implies item_ok(g, s, dist, y) by {
        assert(heap.count(y) > 0);
    }
    assert forall|i: int| 0 <= i < b2.len() implies item_ok(g, s, dist, #[trigger] b2[i]) by {
        if i < batch.len() {
            assert(b2[i] == batch[i]);
        }
    }
}

/// An accepted relaxation, with the target's new entry pushed, keeps every vertex kept up.
proof fn lemma_keep_relax(
    g: Graph,
    s: int,
    dist: Seq<u64>,
    heap: Multiset<HeapItem>,
    batch: Seq<HeapItem>,
    t: int,
    v: int,
    nd: u64,
)
    requires
        all_kept_up(g, s, dist, heap, batch, t),
        g.wf(),
        dist.len() == g.n,
        0 <= v < g.n,
        nd < dist[v],
        g.walk_of_len(s, v, nd as int),
    ensures
        all_kept_up(g, s, dist.update(v, nd), heap.insert(entry(nd, v)), batch, t),
{
    broadcast use vstd::multiset::group_multiset_axioms;

    let d2 = dist.update(v, nd);
    let h2 = heap.insert(entry(nd, v));
    assert forall|u: int| 0 <= u < g.n && d2[u] < INF implies #[trigger] kept_up(
        g,
        d2,
        h2,
        batch,
        t,
        u,
    ) by {
        if u != v {
            assert(kept_up(g, dist, heap, batch, t, u));
            if relaxed_all(g, dist, u) {
                assert forall|f: int| #[trigger] g.edge_from(u, f) implies d2[g.tgt[f] as int]
                    <= d2[u] + g.wts[f] by {
                    assert(dist[g.tgt[f] as int] <= dist[u] + g.wts[f]);
                }
            } else if batched(batch, t, dist, u) {
                let i = choose|i: int| t <= i < batch.len() && #[trigger] batch[i] == entry(dist[u], u);
                assert(batch[i] == entry(d2[u], u));
            }
        }
    }
    assert forall|y: HeapItem| #[trigger] h2.count(y) > 0 implies item_ok(g, s, d2, y) by {
        if y != entry(nd, v) {
            assert(heap.count(y) > 0);
            assert(item_ok(g, s, dist, y));
        }
    }
    assert forall|i: int| 0 <= i < batch.len() implies item_ok(g, s, d2, #[trigger] batch[i]) by {
        assert(item_ok(g, s, dist, batch[i]));
    }
}

/// Once the item at `t` has had its edges relaxed, the next can be taken up.
proof fn lemma_keep_next(
    g: Graph,
    s: int,
    dist: Seq<u64>,
    heap: Multiset<HeapItem>,
    batch: Seq<HeapItem>,
    t: int,
)
    requires
        all_kept_up(g, s, dist, heap, batch, t),
        g.n <= u32::MAX,
        0 <= t < batch.len(),
        batch[t].dist == dist[batch[t].node as int] ==> relaxed_all(g, dist, batch[t].node as int),
    ensures
        all_kept_up(g, s, dist, heap, batch, t + 1),
{
    assert forall|u: int| 0 <= u < g.n && dist[u] < INF implies #[trigger] kept_up(
        g,
        dist,
        heap,
        batch,
        t + 1,
        u,
    ) by {
        assert(kept_up(g, dist, heap, batch, t, u));
        if batched(batch, t, dist, u) && !relaxed_all(g, dist, u) {
            let i = choose|i: int| t <= i < batch.len() && #[trigger] batch[i] == entry(dist[u], u);
            if i == t {
                assert(batch[t].node as int == u);
            } else {
                assert(batched(batch, t + 1, dist, u));
            }
        }
    }
}

/// No more vertices are reached than one and the relaxations counted,
/// unless the counter stands at its largest value.
pub open spec fn relaxed_for(dist: Seq<u64>, relaxations: u64) -> bool {
    count_lt(dist, INF) <= 1 + relaxations || relaxations == u64::MAX
}

/// Relaxes every edge of the batch item at `t` from the distance it was popped with.
fn relax_item(
    g: &Csr,
    source: u32,
    dist: &mut Vec<u64>,
    pred: &mut Vec<i32>,
    heap: &mut MinHeap,
    batch: &Vec<HeapItem>,
    t: usize,
    relaxations: &mut u64,
) -> (status: i32)
    requires
        upper_ok(g@, source as int, old(dist)@, old(pred)@),
        old(heap).wf(),
        all_kept_up(g@, source as int, old(dist)@, old(heap).items(), batch@, t as int),
        t < batch@.len(),
    ensures
        status == STATUS_OK || status == STATUS_CAP_EXCEEDED,
        upper_ok(g@, source as int, final(dist)@, final(pred)@),
        final(heap).wf(),
        dist_sum(final(dist)@) <= dist_sum(old(dist)@),
        final(heap).size() > old(heap).size() ==> dist_sum(final(dist)@) < dist_sum(old(dist)@),
        final(heap).size() >= old(heap).size(),
        *final(relaxations) >= *old(relaxations),
        relaxed_for(old(dist)@, *old(relaxations)) ==> relaxed_for(final(dist)@, *final(relaxations)),
        status == STATUS_OK ==> all_kept_up(
            g@,
            source as int,
            final(dist)@,
            final(heap).items(),
            batch@,
            t as int + 1,
        ),
{
    let ghost gg = g@;
    let ghost s = source as int;
    let hi = batch[t];
    let u: u32 = hi.node;
    let base: u64 = hi.dist;
    proof {
        assert(item_ok(gg, s, dist@, batch@[t as int]));
        assert(gg.walk_of_len(s, u as int, base as int));
        let p = choose|p: Seq<int>| #[trigger]
            gg.walk_to(s, u as int, p) && gg.walk_len(p) == base as int;
        assert(gg.walk_to(s, u as int, p));
    }
    let start: usize = g.first_edge(u);
    let end: usize = g.end_edge(u);
    let mut e: usize = start;
    while e < end
        invariant
            gg == g@,
            s == source as int,
            upper_ok(gg, s, dist@, pred@),
            heap.wf(),
            all_kept_up(gg, s, dist@, heap.items(), batch@, t as int),
            t < batch@.len(),
            hi == batch@[t as int],
            u == hi.node,
            base == hi.dist,
            u < gg.n,
            base < INF,
            gg.walk_of_len(s, u as int, base as int),
            dist@[u as int] == old(dist)@[u as int],
            start <= e <= end,
            start == gg.off[u as int],
            end == gg.off[u as int + 1],
            end <= gg.m(),
            dist_sum(dist@) <= dist_sum(old(dist)@),
            heap.size() > old(heap).size() ==> dist_sum(dist@) < dist_sum(old(dist)@),
            heap.size() >= old(heap).size(),
            *relaxations >= *old(relaxations),
            relaxed_for(old(dist)@, *old(relaxations)) ==> relaxed_for(dist@, *relaxations),
            forall|f: int| start <= f < e ==> dist@[(#[trigger] gg.tgt[f]) as int] <= base + gg.wts[f],
        decreases end - e,
    {
        let v: u32 = g.targets[e];
        let w: u64 = g.weights[e];
        let nd: u64 = dist_add(base, w);
        if nd < dist[v as usize] {
            let (pushes, _pops, _peak) = heap.counters();
            if pushes == u64::MAX {
                return STATUS_CAP_EXCEEDED;
            }
            let ghost d0 = dist@;
            proof {
                assert(gg.edge_from(u as int, e as int));
                assert(gg.off[u as int + 1] <= gg.off[gg.n as int]);
                assert(item_ok(gg, s, d0, batch@[t as int]));
                lemma_upper_from(gg, s, d0, pred@, u as int, e as int, base);
                lemma_dist_sum_update(d0, v as int, nd);
                lemma_count_lt_update(d0, v as int, nd, INF);
                lemma_keep_relax(gg, s, d0, heap.items(), batch@, t as int, v as int, nd);
                heap.lemma_size();
            }
            dist[v as usize] = nd;
            pred[v as usize] = u as i32;
            heap.push(HeapItem { dist: nd, node: v });
            *relaxations = bump(*relaxations);
            proof {
                assert forall|f: int| start <= f < e + 1 implies dist@[(
                #[trigger] gg.tgt[f]) as int] <= base + gg.wts[f] by {
                    if f < e {
                        assert(d0[gg.tgt[f] as int] <= base + gg.wts[f]);
                    }
                }
            }
        }
        e += 1;
    }
    proof {
        if base == dist@[u as int] {
            assert forall|f: int| #[trigger] gg.edge_from(u as int, f) implies dist@[gg.tgt[f] as int]
                <= dist@[u as int] + gg.wts[f] by {
                assert(dist@[(gg.tgt[f]) as int] <= base + gg.wts[f]);
            }
        }
        lemma_keep_next(gg, s, dist@, heap.items(), batch@, t as int);
    }
    STATUS_OK
}

/// What a run with source `s` starts from: only the source reached, its entry in the heap.
proof fn lemma_keep_start(g: Graph, s: int, dist: Seq<u64>, heap: Multiset<HeapItem>)
    requires
        g.wf(),
        0 <= s < g.n,
        dist.len() == g.n,
        forall|v: int| 0 <= v < g.n ==> dist[v] == if v == s { 0u64 } else { INF },
        heap == Multiset::singleton(entry(0, s)),
    ensures
        all_kept_up(g, s, dist, heap, Seq::empty(), 0),
{
    broadcast use vstd::multiset::group_multiset_axioms;

    lemma_source_dist(g, s);
    let none = Seq::<HeapItem>::empty();
    assert forall|u: int| 0 <= u < g.n && dist[u] < INF implies #[trigger] kept_up(
        g,
        dist,
        heap,
        none,
        0,
        u,
    ) by {
        assert(u == s);
    }
    assert forall|x: HeapItem| #[trigger] heap.count(x) > 0 implies item_ok(g, s, dist, x) by {
        if x != entry(0, s) {
            assert(heap.count(x) == 0);
        }
    }
}

/// With heap and batch empty, every reached vertex has its edges relaxed.
proof fn lemma_keep_end(g: Graph, s: int, dist: Seq<u64>, heap: Multiset<HeapItem>, batch: Seq<HeapItem>)
    requires
        all_kept_up(g, s, dist, heap, batch, batch.len() as int),
        heap.len() == 0,
    ensures
        forall|u: int| 0 <= u < g.n && dist[u] < INF ==> #[trigger] relaxed_all(g, dist, u),
{
    broadcast use vstd::multiset::group_multiset_axioms;

    assert forall|u: int| 0 <= u < g.n && dist[u] < INF implies #[trigger] relaxed_all(
        g,
        dist,
        u,
    ) by {
        assert(kept_up(g, dist, heap, batch, batch.len() as int, u));
        vstd::multiset::axiom_count_le_len(heap, entry(dist[u], u));
    }
}

/// A batch that is done can be dropped.
proof fn lemma_keep_clear(g: Graph, s: int, dist: Seq<u64>, heap: Multiset<HeapItem>, batch: Seq<HeapItem>)
    requires
        all_kept_up(g, s, dist, heap, batch, batch.len() as int),
    ensures
        all_kept_up(g, s, dist, heap, Seq::empty(), 0),
{
    let none = Seq::<HeapItem>::empty();
    assert forall|u: int| 0 <= u < g.n && dist[u] < INF implies #[trigger] kept_up(
        g,
        dist,
        heap,
        none,
        0,
        u,
    ) by {
        assert(kept_up(g, dist, heap, batch, batch.len() as int, u));
    }
}

/// The batched heap engine with batch size `k`, taken within 1 and 1024.
/// Returns `entry_status` of the inputs, or -5 should the heap's push
/// counter be spent; whatever is returned but 0, nothing is written. On 0
/// the output holds the distance of every vertex and tight predecessors,
/// and the result record the relaxations made, one at least for every
/// reached vertex but the source, the count stopping at its largest value.
pub fn sssp_run_khop(
    n: u32,
    offsets: &[u32],
    targets: &[u32],
    weights: &[u64],
    source: u32,
    out_dist: &mut Vec<u64>,
    out_pred: &mut Vec<i32>,
    info: &mut SsspResultInfo,
    k: u32,
) -> (status: i32)
    ensures
        entry_status(n, offsets, targets, weights, source, old(out_dist)@.len(), old(out_pred)@.len())
            != STATUS_OK ==> status == entry_status(
            n,
            offsets,
            targets,
            weights,
            source,
            old(out_dist)@.len(),
            old(out_pred)@.len(),
        ),
        status == STATUS_OK || status == STATUS_CAP_EXCEEDED || status == entry_status(
            n,
            offsets,
            targets,
            weights,
            source,
            old(out_dist)@.len(),
            old(out_pred)@.len(),
        ),
        status != STATUS_OK ==> {
            &&& final(out_dist)@ == old(out_dist)@
            &&& final(out_pred)@ == old(out_pred)@
            &&& *final(info) == *old(info)
        },
        status == STATUS_OK ==> {
            &&& graph_of(n, offsets, targets, weights).is_solution(source as int, final(out_dist)@)
            &&& graph_of(n, offsets, targets, weights).pred_tight(
                source as int,
                final(out_dist)@,
                final(out_pred)@,
            )
            &&& count_lt(final(out_dist)@, INF) <= 1 + final(info).relaxations
            &&& final(info).light_relaxations == 0
            &&& final(info).heavy_relaxations == 0
            &&& final(info).settled == n
            &&& final(info).error_code == 0
        },
{
    let status = check_entry(n, offsets, targets, weights, source, out_dist.len(), out_pred.len());
    if status != STATUS_OK {
        return status;
    }
    let g = Csr { n, offsets, targets, weights };
    let ghost gg = g@;
    let ghost s = source as int;
    let k: u32 = batch_size(k);
    let mut dist: Vec<u64> = vec![INF; n as usize];
    let mut pred: Vec<i32> = vec![-1i32; n as usize];
    dist[source as usize] = 0;
    let cap: usize = if (n as usize) < 1024 { n as usize } else { 1024 };
    let mut heap = MinHeap::with_cap(cap);
    heap.push(HeapItem { dist: 0, node: source });
    let mut relaxations: u64 = 0;
    let mut batch: Vec<HeapItem> = Vec::new();
    proof {
        broadcast use vstd::multiset::group_multiset_axioms;

        lemma_upper_start(gg, s, dist@, pred@);
        lemma_count_lt_single(dist@, s);
        assert(heap.items() =~= Multiset::singleton(entry(0, s)));
        lemma_keep_start(gg, s, dist@, heap.items());
        assert(batch@ =~= Seq::<HeapItem>::empty());
    }
    loop
        invariant
            gg == g@,
            gg == graph_of(n, offsets, targets, weights),
            s == source as int,
            n == gg.n,
            1 <= k <= BATCH_MAX,
            upper_ok(gg, s, dist@, pred@),
            relaxed_for(dist@, relaxations),
            heap.wf(),
            all_kept_up(gg, s, dist@, heap.items(), Seq::empty(), 0),
            *info == *old(info),
            out_dist@ == old(out_dist)@,
            out_pred@ == old(out_pred)@,
            entry_status(
                n,
                offsets,
                targets,
                weights,
                source,
                old(out_dist)@.len(),
                old(out_pred)@.len(),
            ) == STATUS_OK,
        ensures
            upper_ok(gg, s, dist@, pred@),
            relaxed_for(dist@, relaxations),
            all_kept_up(gg, s, dist@, heap.items(), Seq::empty(), 0),
            heap.size() == 0,
            *info == *old(info),
            out_dist@ == old(out_dist)@,
            out_pred@ == old(out_pred)@,
        decreases dist_sum(dist@), heap.size(),
    {
        let ghost m0 = dist_sum(dist@);
        let ghost z0 = heap.size();
        let ghost h_before = heap.items();
        proof {
            heap.lemma_size();
        }
        let item = match heap.pop() {
            None => {
                break ;
            },
            Some(item) => item,
        };
        proof {
            lemma_dist_sum_nonneg(dist@);
            assert(item_ok(gg, s, dist@, item));
            heap.lemma_size();
        }
        if item.dist > dist[item.node as usize] {
            proof {
                lemma_drop_stale(gg, s, dist@, h_before, Seq::empty(), 0, item);
            }
            continue ;
        }
        batch.clear();
        proof {
            broadcast use vstd::multiset::group_multiset_axioms;

            assert(batch@ =~= Seq::<HeapItem>::empty());
            lemma_to_batch(gg, s, dist@, h_before, batch@, item);
        }
        batch.push(item);
        let mut i: u32 = 1;
        let mut more: bool = true;
        while i < k && more
            invariant
                gg == g@,
                s == source as int,
                n == gg.n,
                1 <= i <= k <= BATCH_MAX,
                upper_ok(gg, s, dist@, pred@),
                relaxed_for(dist@, relaxations),
                heap.wf(),
                all_kept_up(gg, s, dist@, heap.items(), batch@, 0),
                batch@.len() >= 1,
                heap.size() < z0,
                dist_sum(dist@) == m0,
            decreases k - i + (if more { 1int } else { 0int }),
        {
            let ghost h0 = heap.items();
            match heap.pop() {
                None => {
                    more = false;
                },
                Some(next) => {
                    proof {
                        broadcast use vstd::multiset::group_multiset_axioms;

                        assert(item_ok(gg, s, dist@, next));
                    }
                    if next.dist > dist[next.node as usize] {
                        proof {
                            lemma_drop_stale(gg, s, dist@, h0, batch@, 0, next);
                        }
                    } else {
                        proof {
                            lemma_to_batch(gg, s, dist@, h0, batch@, next);
                        }
                        batch.push(next);
                    }
                    i += 1;
                },
            }
        }
        let mut t: usize = 0;
        while t < batch.len()
            invariant
                gg == g@,
                s == source as int,
                n == gg.n,
                t <= batch@.len(),
                upper_ok(gg, s, dist@, pred@),
                relaxed_for(dist@, relaxations),
                heap.wf(),
                all_kept_up(gg, s, dist@, heap.items(), batch@, t as int),
                dist_sum(dist@) <= m0,
                heap.size() >= z0 ==> dist_sum(dist@) < m0,
                *info == *old(info),
                out_dist@ == old(out_dist)@,
                out_pred@ == old(out_pred)@,
            out_dist@ == old(out_dist)@,
            out_pred@ == old(out_pred)@,
                entry_status(
                    n,
                    offsets,
                    targets,
                    weights,
                    source,
                    old(out_dist)@.len(),
                    old(out_pred)@.len(),
                ) == STATUS_OK,
            decreases batch@.len() - t,
        {
            let status = relax_item(
                &g,
                source,
                &mut dist,
                &mut pred,
                &mut heap,
                &batch,
                t,
                &mut relaxations,
            );
            if status != STATUS_OK {
                return status;
            }
            t += 1;
        }
        proof {
            lemma_keep_clear(gg, s, dist@, heap.items(), batch@);
            lemma_dist_sum_nonneg(dist@);
        }
    }
    proof {
        heap.lemma_size();
        lemma_count_lt_le(dist@, INF);
        lemma_keep_end(gg, s, dist@, heap.items(), Seq::empty());
        lemma_relaxed_is_solution(gg, s, dist@, pred@);
    }
    *info = SsspResultInfo {
        relaxations,
        light_relaxations: 0,
        heavy_relaxations: 0,
        settled: n,
        error_code: 0,
    };
    *out_dist = dist;
    *out_pred = pred;
    STATUS_OK
}

/// The default engine: the batched heap engine.
pub fn sssp_run_default(
    n: u32,
    offsets: &[u32],
    targets: &[u32],
    weights: &[u64],
    source: u32,
    out_dist: &mut Vec<u64>,
    out_pred: &mut Vec<i32>,
    info: &mut SsspResultInfo,
    k: u32,
) -> (status: i32)
    ensures
        entry_status(n, offsets, targets, weights, source, old(out_dist)@.len(), old(out_pred)@.len())
            != STATUS_OK ==> status == entry_status(
            n,
            offsets,
            targets,
            weights,
            source,
            old(out_dist)@.len(),
            old(out_pred)@.len(),
        ),
        status == STATUS_OK || status == STATUS_CAP_EXCEEDED || status == entry_status(
            n,
            offsets,
            targets,
            weights,
            source,
            old(out_dist)@.len(),
            old(out_pred)@.len(),
        ),
        status != STATUS_OK ==> {
            &&& final(out_dist)@ == old(out_dist)@
            &&& final(out_pred)@ == old(out_pred)@
            &&& *final(info) == *old(info)
        },
        status == STATUS_OK ==> {
            &&& graph_of(n, offsets, targets, weights).is_solution(source as int, final(out_dist)@)
            &&& graph_of(n, offsets, targets, weights).pred_tight(
                source as int,
                final(out_dist)@,
                final(out_pred)@,
            )
            &&& count_lt(final(out_dist)@, INF) <= 1 + final(info).relaxations
            &&& final(info).light_relaxations == 0
            &&& final(info).heavy_relaxations == 0
            &&& final(info).settled == n
            &&& final(info).error_code == 0
        },
{
    sssp_run_khop(n, offsets, targets, weights, source, out_dist, out_pred, info, k)
}

} // verus!
